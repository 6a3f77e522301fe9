use vstd::prelude::*;
use crate::cell::{Cell, Color, colored, deleting_of};
use crate::grid::{CellGrid, col_seq, grid_settled, all_normal, no_deleting, swap_spec};
use crate::scan::{Match, check_line, in_match, is_match_end, line_match_count, line_match_len,
    match_count_upto,
    matches_len_sum, valid_match, lemma_upto_bounds, lemma_run_len_le, lemma_run_struct,
    lemma_delete_no_match, run_len};

verus! {

/// Number of matches in the first `r` rows.
pub open spec fn rows_count_upto(cells: Seq<Seq<Cell>>, r: int) -> int
    decreases r,
{
    if r <= 0 {
        0
    } else {
        rows_count_upto(cells, r - 1) + line_match_count(cells[r - 1])
    }
}

/// Number of matches in the first `c` columns.
pub open spec fn cols_count_upto(cells: Seq<Seq<Cell>>, c: int) -> int
    decreases c,
{
    if c <= 0 {
        0
    } else {
        cols_count_upto(cells, c - 1) + line_match_count(col_seq(cells, c - 1))
    }
}

/// The number of Match records a full scan of the grid reports: all columns,
/// then all rows, counted independently.
pub open spec fn total_match_count(cells: Seq<Seq<Cell>>, w: int) -> int {
    cols_count_upto(cells, w) + rows_count_upto(cells, cells.len() as int)
}

/// Total matched length over the first `r` rows.
pub open spec fn rows_len_upto(cells: Seq<Seq<Cell>>, r: int) -> int
    decreases r,
{
    if r <= 0 {
        0
    } else {
        rows_len_upto(cells, r - 1) + line_match_len(cells[r - 1])
    }
}

/// Total matched length over the first `c` columns.
pub open spec fn cols_len_upto(cells: Seq<Seq<Cell>>, c: int) -> int
    decreases c,
{
    if c <= 0 {
        0
    } else {
        cols_len_upto(cells, c - 1) + line_match_len(col_seq(cells, c - 1))
    }
}

/// The sum of the lengths of every match of one detection pass: row and
/// column matches counted independently, so a cell in both counts twice.
pub open spec fn total_match_len(cells: Seq<Seq<Cell>>, w: int) -> int {
    cols_len_upto(cells, w) + rows_len_upto(cells, cells.len() as int)
}

/// No row and no column holds any run of three or more same-colored tokens.
pub open spec fn no_matches(cells: Seq<Seq<Cell>>, w: int) -> bool {
    &&& forall|r: int| 0 <= r < cells.len() ==> line_match_count(#[trigger] cells[r]) == 0
    &&& forall|c: int| 0 <= c < w ==> line_match_count(#[trigger] col_seq(cells, c)) == 0
}

/// The triangular number: the score a deletion pass of total matched
/// length `n` earns.
pub open spec fn tri(n: int) -> int {
    n * (n + 1) / 2
}

/// The score after adding `tri(n)` points, saturating at the machine limit.
pub open spec fn score_after(s: usize, n: int) -> int {
    if s + tri(n) <= usize::MAX {
        s + tri(n)
    } else {
        usize::MAX as int
    }
}

/// What one deletion pass leaves in each cell: emptied where the cell was
/// already marked or lies in some row or column match, unchanged elsewhere.
pub open spec fn delete_spec(cells: Seq<Seq<Cell>>, r: int, c: int) -> Cell {
    if cells[r][c] is Deleting || in_match(cells[r], c) || in_match(col_seq(cells, c), r) {
        Cell::Empty
    } else {
        cells[r][c]
    }
}

/// Position `(r, c)` lies in the span of one of the first `k` column
/// matches.
#[verifier::opaque]
pub open spec fn covered_col(ms: Seq<Match>, k: int, r: int, c: int) -> bool {
    exists|j: int|
        0 <= j < k && (#[trigger] ms[j]).outer_index == c && ms[j].inner_index - ms[j].length <= r
            < ms[j].inner_index
}

/// Position `(r, c)` lies in the span of one of the first `k` row matches.
#[verifier::opaque]
pub open spec fn covered_row(ms: Seq<Match>, k: int, r: int, c: int) -> bool {
    exists|j: int|
        0 <= j < k && (#[trigger] ms[j]).outer_index == r && ms[j].inner_index - ms[j].length <= c
            < ms[j].inner_index
}

/// The grid with the first `x` rows of one column match's span marked.
pub open spec fn mark_span_col_upto(cells: Seq<Seq<Cell>>, m: Match, x: int) -> Seq<Seq<Cell>> {
    Seq::new(
        cells.len(),
        |rr: int|
            Seq::new(
                cells[rr].len(),
                |cc: int|
                    if cc == m.outer_index && m.inner_index - m.length <= rr < x {
                        deleting_of(cells[rr][cc])
                    } else {
                        cells[rr][cc]
                    },
            ),
    )
}

/// The grid with one column match's whole span marked.
pub open spec fn mark_span_col(cells: Seq<Seq<Cell>>, m: Match) -> Seq<Seq<Cell>> {
    mark_span_col_upto(cells, m, m.inner_index as int)
}

/// The grid with the spans of the first `k` column matches marked.
pub open spec fn mark_cols_upto(cells0: Seq<Seq<Cell>>, ms: Seq<Match>, k: int) -> Seq<Seq<Cell>>
    decreases k,
{
    if k <= 0 {
        cells0
    } else {
        mark_span_col(mark_cols_upto(cells0, ms, k - 1), ms[k - 1])
    }
}

/// The grid with the first `y` columns of one row match's span marked.
pub open spec fn mark_span_row_upto(cells: Seq<Seq<Cell>>, m: Match, y: int) -> Seq<Seq<Cell>> {
    Seq::new(
        cells.len(),
        |rr: int|
            Seq::new(
                cells[rr].len(),
                |cc: int|
                    if rr == m.outer_index && m.inner_index - m.length <= cc < y {
                        deleting_of(cells[rr][cc])
                    } else {
                        cells[rr][cc]
                    },
            ),
    )
}

/// The grid with one row match's whole span marked.
pub open spec fn mark_span_row(cells: Seq<Seq<Cell>>, m: Match) -> Seq<Seq<Cell>> {
    mark_span_row_upto(cells, m, m.inner_index as int)
}

/// The grid with the spans of the first `k` row matches marked.
pub open spec fn mark_rows_upto(cells0: Seq<Seq<Cell>>, ms: Seq<Match>, k: int) -> Seq<Seq<Cell>>
    decreases k,
{
    if k <= 0 {
        cells0
    } else {
        mark_span_row(mark_rows_upto(cells0, ms, k - 1), ms[k - 1])
    }
}

/// Marking the first `k` column matches marks exactly the covered cells.
pub proof fn lemma_mark_cols_pointwise(cells0: Seq<Seq<Cell>>, ms: Seq<Match>, k: int)
    ensures
        mark_cols_upto(cells0, ms, k).len() == cells0.len(),
        forall|rr: int|
            0 <= rr < cells0.len() ==> (#[trigger] mark_cols_upto(cells0, ms, k)[rr]).len()
                == cells0[rr].len(),
        forall|rr: int, cc: int|
            0 <= rr < cells0.len() && 0 <= cc < cells0[rr].len()
                ==> #[trigger] mark_cols_upto(cells0, ms, k)[rr][cc] == (if covered_col(
                ms,
                k,
                rr,
                cc,
            ) {
                deleting_of(cells0[rr][cc])
            } else {
                cells0[rr][cc]
            }),
    decreases k,
{
    reveal(covered_col);
    if k <= 0 {
        assert forall|rr: int, cc: int|
            0 <= rr < cells0.len() && 0 <= cc < cells0[rr].len() implies #[trigger] mark_cols_upto(
            cells0,
            ms,
            k,
        )[rr][cc] == (if covered_col(ms, k, rr, cc) {
            deleting_of(cells0[rr][cc])
        } else {
            cells0[rr][cc]
        }) by {
            assert(!covered_col(ms, k, rr, cc));
        }
    } else {
        lemma_mark_cols_pointwise(cells0, ms, k - 1);
        let base = mark_cols_upto(cells0, ms, k - 1);
        let m = ms[k - 1];
        assert forall|rr: int, cc: int|
            0 <= rr < cells0.len() && 0 <= cc < cells0[rr].len() implies #[trigger] mark_cols_upto(
            cells0,
            ms,
            k,
        )[rr][cc] == (if covered_col(ms, k, rr, cc) {
            deleting_of(cells0[rr][cc])
        } else {
            cells0[rr][cc]
        }) by {
            assert(mark_cols_upto(cells0, ms, k)[rr][cc] == (if cc == m.outer_index
                && m.inner_index - m.length <= rr < m.inner_index {
                deleting_of(base[rr][cc])
            } else {
                base[rr][cc]
            }));
            if covered_col(ms, k, rr, cc) {
                let j = choose|j: int|
                    0 <= j < k && (#[trigger] ms[j]).outer_index == cc && ms[j].inner_index
                        - ms[j].length <= rr < ms[j].inner_index;
                if j < k - 1 {
                    assert(covered_col(ms, k - 1, rr, cc));
                }
            } else {
                assert(!covered_col(ms, k - 1, rr, cc));
            }
        }
    }
}

/// Marking the first `k` row matches marks exactly the covered cells.
pub proof fn lemma_mark_rows_pointwise(cells0: Seq<Seq<Cell>>, ms: Seq<Match>, k: int)
    ensures
        mark_rows_upto(cells0, ms, k).len() == cells0.len(),
        forall|rr: int|
            0 <= rr < cells0.len() ==> (#[trigger] mark_rows_upto(cells0, ms, k)[rr]).len()
                == cells0[rr].len(),
        forall|rr: int, cc: int|
            0 <= rr < cells0.len() && 0 <= cc < cells0[rr].len()
                ==> #[trigger] mark_rows_upto(cells0, ms, k)[rr][cc] == (if covered_row(
                ms,
                k,
                rr,
                cc,
            ) {
                deleting_of(cells0[rr][cc])
            } else {
                cells0[rr][cc]
            }),
    decreases k,
{
    reveal(covered_row);
    if k <= 0 {
        assert forall|rr: int, cc: int|
            0 <= rr < cells0.len() && 0 <= cc < cells0[rr].len() implies #[trigger] mark_rows_upto(
            cells0,
            ms,
            k,
        )[rr][cc] == (if covered_row(ms, k, rr, cc) {
            deleting_of(cells0[rr][cc])
        } else {
            cells0[rr][cc]
        }) by {
            assert(!covered_row(ms, k, rr, cc));
        }
    } else {
        lemma_mark_rows_pointwise(cells0, ms, k - 1);
        let base = mark_rows_upto(cells0, ms, k - 1);
        let m = ms[k - 1];
        assert forall|rr: int, cc: int|
            0 <= rr < cells0.len() && 0 <= cc < cells0[rr].len() implies #[trigger] mark_rows_upto(
            cells0,
            ms,
            k,
        )[rr][cc] == (if covered_row(ms, k, rr, cc) {
            deleting_of(cells0[rr][cc])
        } else {
            cells0[rr][cc]
        }) by {
            assert(mark_rows_upto(cells0, ms, k)[rr][cc] == (if rr == m.outer_index
                && m.inner_index - m.length <= cc < m.inner_index {
                deleting_of(base[rr][cc])
            } else {
                base[rr][cc]
            }));
            if covered_row(ms, k, rr, cc) {
                let j = choose|j: int|
                    0 <= j < k && (#[trigger] ms[j]).outer_index == rr && ms[j].inner_index
                        - ms[j].length <= cc < ms[j].inner_index;
                if j < k - 1 {
                    assert(covered_row(ms, k - 1, rr, cc));
                }
            } else {
                assert(!covered_row(ms, k - 1, rr, cc));
            }
        }
    }
}

/// How many colored cells a row holds.
pub open spec fn row_colored(row: Seq<Cell>) -> int
    decreases row.len(),
{
    if row.len() == 0 {
        0
    } else {
        row_colored(row.drop_last()) + if colored(row.last()) {
            1int
        } else {
            0int
        }
    }
}

pub proof fn lemma_row_colored_le(a: Seq<Cell>, b: Seq<Cell>)
    requires
        a.len() == b.len(),
        forall|i: int| 0 <= i < a.len() ==> #[trigger] b[i] == a[i] || b[i] is Empty,
    ensures
        0 <= row_colored(b) <= row_colored(a),
        row_colored(a) <= a.len(),
    decreases a.len(),
{
    if a.len() > 0 {
        lemma_row_colored_le(a.drop_last(), b.drop_last());
        assert(b[a.len() - 1] == a[a.len() - 1] || b[a.len() - 1] is Empty);
    }
}

pub proof fn lemma_row_colored_lt(a: Seq<Cell>, b: Seq<Cell>, i: int)
    requires
        a.len() == b.len(),
        forall|j: int| 0 <= j < a.len() ==> #[trigger] b[j] == a[j] || b[j] is Empty,
        0 <= i < a.len(),
        colored(a[i]),
        b[i] is Empty,
    ensures
        row_colored(b) < row_colored(a),
    decreases a.len(),
{
    lemma_row_colored_le(a, b);
    if i == a.len() - 1 {
        lemma_row_colored_le(a.drop_last(), b.drop_last());
    } else {
        lemma_row_colored_lt(a.drop_last(), b.drop_last(), i);
        assert(b[a.len() - 1] == a[a.len() - 1] || b[a.len() - 1] is Empty);
    }
}




/// How many colored cells the first `c` columns hold.
pub open spec fn grid_colored_cols(cells: Seq<Seq<Cell>>, c: int) -> int
    decreases c,
{
    if c <= 0 {
        0
    } else {
        grid_colored_cols(cells, c - 1) + row_colored(col_seq(cells, c - 1))
    }
}

pub proof fn lemma_gcc_nonneg(cells: Seq<Seq<Cell>>, c: int)
    ensures
        grid_colored_cols(cells, c) >= 0,
    decreases c,
{
    if c > 0 {
        lemma_gcc_nonneg(cells, c - 1);
        lemma_row_colored_le(col_seq(cells, c - 1), col_seq(cells, c - 1));
    }
}

/// Equal columns give equal totals.
pub proof fn lemma_gcc_same(a: Seq<Seq<Cell>>, b: Seq<Seq<Cell>>, c: int)
    requires
        forall|c2: int| 0 <= c2 < c ==> col_seq(a, c2) == col_seq(b, c2),
    ensures
        grid_colored_cols(a, c) == grid_colored_cols(b, c),
    decreases c,
{
    if c > 0 {
        lemma_gcc_same(a, b, c - 1);
    }
}

/// Emptying cells never raises a column's token count.
pub proof fn lemma_gcc_le(a: Seq<Seq<Cell>>, b: Seq<Seq<Cell>>, c: int)
    requires
        a.len() == b.len(),
        forall|i: int, j: int|
            0 <= i < a.len() && 0 <= j < a[i].len() ==> #[trigger] b[i][j] == a[i][j]
                || b[i][j] is Empty,
        forall|i: int| 0 <= i < a.len() ==> (#[trigger] a[i]).len() == b[i].len(),
        forall|i: int| 0 <= i < a.len() && c > 0 ==> c <= (#[trigger] a[i]).len(),
    ensures
        grid_colored_cols(b, c) <= grid_colored_cols(a, c),
    decreases c,
{
    if c > 0 {
        lemma_gcc_le(a, b, c - 1);
        assert forall|j: int|
            0 <= j < col_seq(a, c - 1).len() implies #[trigger] col_seq(b, c - 1)[j] == col_seq(
            a,
            c - 1,
        )[j] || col_seq(b, c - 1)[j] is Empty by {
            assert(col_seq(a, c - 1)[j] == a[j][c - 1]);
            assert(col_seq(b, c - 1)[j] == b[j][c - 1]);
        }
        lemma_row_colored_le(col_seq(a, c - 1), col_seq(b, c - 1));
    }
}

/// Emptying a colored cell strictly lowers the total.
pub proof fn lemma_gcc_lt(a: Seq<Seq<Cell>>, b: Seq<Seq<Cell>>, w: int, r: int, c: int)
    requires
        a.len() == b.len(),
        forall|i: int, j: int|
            0 <= i < a.len() && 0 <= j < a[i].len() ==> #[trigger] b[i][j] == a[i][j]
                || b[i][j] is Empty,
        forall|i: int| 0 <= i < a.len() ==> (#[trigger] a[i]).len() == w,
        forall|i: int| 0 <= i < a.len() ==> (#[trigger] b[i]).len() == w,
        0 <= r < a.len(),
        0 <= c < w,
        colored(a[r][c]),
        b[r][c] is Empty,
    ensures
        grid_colored_cols(b, w) < grid_colored_cols(a, w),
{
    lemma_gcc_le(a, b, c);
    lemma_gcc_tail(a, b, c + 1, w);
    assert forall|j: int|
        0 <= j < col_seq(a, c).len() implies #[trigger] col_seq(b, c)[j] == col_seq(a, c)[j]
        || col_seq(b, c)[j] is Empty by {
        assert(col_seq(a, c)[j] == a[j][c]);
        assert(col_seq(b, c)[j] == b[j][c]);
    }
    assert(col_seq(a, c)[r] == a[r][c]);
    assert(col_seq(b, c)[r] == b[r][c]);
    lemma_row_colored_lt(col_seq(a, c), col_seq(b, c), r);
}

pub proof fn lemma_gcc_tail(a: Seq<Seq<Cell>>, b: Seq<Seq<Cell>>, lo: int, hi: int)
    requires
        0 <= lo <= hi,
        a.len() == b.len(),
        forall|i: int, j: int|
            0 <= i < a.len() && 0 <= j < a[i].len() ==> #[trigger] b[i][j] == a[i][j]
                || b[i][j] is Empty,
        forall|i: int| 0 <= i < a.len() ==> hi <= (#[trigger] a[i]).len(),
        forall|i: int| 0 <= i < a.len() ==> (#[trigger] a[i]).len() == b[i].len(),
    ensures
        grid_colored_cols(b, hi) - grid_colored_cols(b, lo) <= grid_colored_cols(a, hi)
            - grid_colored_cols(a, lo),
    decreases hi - lo,
{
    if lo < hi {
        lemma_gcc_tail(a, b, lo, hi - 1);
        assert forall|j: int|
            0 <= j < col_seq(a, hi - 1).len() implies #[trigger] col_seq(b, hi - 1)[j] == col_seq(
            a,
            hi - 1,
        )[j] || col_seq(b, hi - 1)[j] is Empty by {
            assert(col_seq(a, hi - 1)[j] == a[j][hi - 1]);
            assert(col_seq(b, hi - 1)[j] == b[j][hi - 1]);
        }
        lemma_row_colored_le(col_seq(a, hi - 1), col_seq(b, hi - 1));
    }
}

/// A line with no match has no match end at all.
pub proof fn lemma_count_nonneg(line: Seq<Cell>, i: int)
    ensures
        match_count_upto(line, i) >= 0,
    decreases i,
{
    if i > 0 {
        lemma_count_nonneg(line, i - 1);
    }
}

pub proof fn lemma_count_mono(line: Seq<Cell>, i: int, j: int)
    requires
        i <= j,
    ensures
        match_count_upto(line, i) <= match_count_upto(line, j),
    decreases j - i,
{
    if i < j {
        lemma_count_mono(line, i, j - 1);
    }
}

pub proof fn lemma_no_matches_no_end(line: Seq<Cell>, i: int)
    requires
        line_match_count(line) == 0,
    ensures
        !is_match_end(line, i),
{
    if is_match_end(line, i) {
        lemma_count_nonneg(line, i - 1);
        lemma_count_mono(line, i, line.len() as int);
    }
}

/// A positive prefix count of empties names an empty cell.
pub proof fn lemma_empties_pos(row: Seq<Cell>, c: int)
    requires
        empties_before(row, c) > 0,
    ensures
        exists|j: int| 0 <= j < c && (#[trigger] row[j]) is Empty,
    decreases c,
{
    if c > 0 {
        if row[c - 1] is Empty {
        } else {
            lemma_empties_pos(row, c - 1);
        }
    }
}

/// A zero prefix count of empties means every cell before `c` is occupied.
pub proof fn lemma_empties_zero(row: Seq<Cell>, c: int, j: int)
    requires
        empties_before(row, c) == 0,
        0 <= j < c,
    ensures
        !((#[trigger] row[j]) is Empty),
    decreases c,
{
    lemma_empties_nonneg(row, c - 1);
    if j < c - 1 {
        lemma_empties_zero(row, c - 1, j);
    }
}

/// Token counts agree with the colored-cells sequence.
pub proof fn lemma_row_colored_via(col: Seq<Cell>)
    ensures
        row_colored(col) == crate::gravity::colored_of(col).len(),
    decreases col.len(),
{
    if col.len() > 0 {
        lemma_row_colored_via(col.drop_last());
    }
}

/// Columns with equal token counts give equal totals.
pub proof fn lemma_gcc_counts(a: Seq<Seq<Cell>>, b: Seq<Seq<Cell>>, c: int)
    requires
        forall|c2: int|
            0 <= c2 < c ==> row_colored(#[trigger] col_seq(a, c2)) == row_colored(col_seq(b, c2)),
    ensures
        grid_colored_cols(a, c) == grid_colored_cols(b, c),
    decreases c,
{
    if c > 0 {
        lemma_gcc_counts(a, b, c - 1);
    }
}

/// A grid with no matches has zero total matched length.
pub proof fn lemma_no_matches_cols_zero(cells: Seq<Seq<Cell>>, w: int, c: int)
    requires
        forall|c2: int| 0 <= c2 < w ==> line_match_count(#[trigger] col_seq(cells, c2)) == 0,
        0 <= c <= w,
    ensures
        cols_len_upto(cells, c) == 0,
    decreases c,
{
    if c > 0 {
        lemma_no_matches_cols_zero(cells, w, c - 1);
        assert forall|i: int| !(#[trigger] is_match_end(col_seq(cells, c - 1), i)) by {
            lemma_no_matches_no_end(col_seq(cells, c - 1), i);
        }
        crate::scan::lemma_no_end_zero(col_seq(cells, c - 1), col_seq(cells, c - 1).len() as int);
    }
}

pub proof fn lemma_no_matches_rows_zero(cells: Seq<Seq<Cell>>, r: int)
    requires
        forall|r2: int| 0 <= r2 < cells.len() ==> line_match_count(#[trigger] cells[r2]) == 0,
        0 <= r <= cells.len(),
    ensures
        rows_len_upto(cells, r) == 0,
    decreases r,
{
    if r > 0 {
        lemma_no_matches_rows_zero(cells, r - 1);
        assert forall|i: int| !(#[trigger] is_match_end(cells[r - 1], i)) by {
            lemma_no_matches_no_end(cells[r - 1], i);
        }
        crate::scan::lemma_no_end_zero(cells[r - 1], cells[r - 1].len() as int);
    }
}

/// A zero column total means no column has any match.
pub proof fn lemma_zero_col(cells: Seq<Seq<Cell>>, c: int, h: int, c2: int)
    requires
        h == cells.len(),
        cols_len_upto(cells, c) == 0,
        0 <= c2 < c,
    ensures
        line_match_len(col_seq(cells, c2)) == 0,
        line_match_count(col_seq(cells, c2)) == 0,
    decreases c,
{
    lemma_upto_bounds(col_seq(cells, c - 1), h);
    lemma_cols_bound(cells, c - 1, h);
    if c2 < c - 1 {
        lemma_zero_col(cells, c - 1, h, c2);
    } else {
        lemma_upto_bounds(col_seq(cells, c2), h);
    }
}

/// A zero row total means no row has any match.
pub proof fn lemma_zero_row(cells: Seq<Seq<Cell>>, r: int, w: int, r2: int)
    requires
        0 <= r <= cells.len(),
        forall|i: int| 0 <= i < cells.len() ==> (#[trigger] cells[i]).len() == w,
        rows_len_upto(cells, r) == 0,
        0 <= r2 < r,
    ensures
        line_match_len(cells[r2]) == 0,
        line_match_count(cells[r2]) == 0,
    decreases r,
{
    lemma_upto_bounds(cells[r - 1], w);
    lemma_rows_bound(cells, r - 1, w);
    if r2 < r - 1 {
        lemma_zero_row(cells, r - 1, w, r2);
    } else {
        lemma_upto_bounds(cells[r2], w);
    }
}

/// Rows below the top being equal, the token-count difference of a column
/// is the difference at its top cell.
pub proof fn lemma_row_colored_head(a: Seq<Cell>, b: Seq<Cell>)
    requires
        a.len() == b.len(),
        a.len() >= 1,
        forall|j: int| 1 <= j < a.len() ==> a[j] == b[j],
    ensures
        row_colored(b) == row_colored(a) + (if colored(b[0]) {
            1int
        } else {
            0int
        }) - (if colored(a[0]) {
            1int
        } else {
            0int
        }),
    decreases a.len(),
{
    if a.len() == 1 {
        assert(a.drop_last() =~= Seq::<Cell>::empty());
        assert(b.drop_last() =~= Seq::<Cell>::empty());
    } else {
        assert forall|j: int| 1 <= j < a.drop_last().len() implies a.drop_last()[j]
            == b.drop_last()[j] by {
            assert(a.drop_last()[j] == a[j]);
            assert(b.drop_last()[j] == b[j]);
        }
        lemma_row_colored_head(a.drop_last(), b.drop_last());
        assert(a.last() == b.last());
    }
}

/// How many of the first `c` top-row cells the refill fills: the empty ones,
/// left to right, while the supply allows.
pub open spec fn filled_before(row: Seq<Cell>, avail: int, c: int) -> int
    decreases c,
{
    if c <= 0 {
        0
    } else {
        filled_before(row, avail, c - 1) + if row[c - 1] is Empty && empties_before(row, c - 1)
            < avail {
            1int
        } else {
            0int
        }
    }
}

/// The refill fills exactly as many cells as the supply allows, up to the
/// number of vacancies.
pub proof fn lemma_filled_is_min(row: Seq<Cell>, avail: int, c: int)
    requires
        avail >= 0,
        c >= 0,
    ensures
        filled_before(row, avail, c) == if empties_before(row, c) <= avail {
            empties_before(row, c)
        } else {
            avail
        },
    decreases c,
{
    if c > 0 {
        lemma_filled_is_min(row, avail, c - 1);
        lemma_empties_nonneg(row, c - 1);
    }
}

/// A refill that only turns top-row vacancies into tokens raises the total
/// token count by exactly the number of cells it filled.
pub proof fn lemma_gcc_add_row(a: Seq<Seq<Cell>>, b: Seq<Seq<Cell>>, avail: int, c: int)
    requires
        a.len() == b.len(),
        a.len() >= 1,
        forall|r: int| 1 <= r < a.len() ==> a[r] == b[r],
        forall|r: int| 0 <= r < a.len() ==> (#[trigger] a[r]).len() == b[r].len(),
        forall|cc: int|
            0 <= cc < a[0].len() ==> #[trigger] b[0][cc] == (if a[0][cc] is Empty
                && empties_before(a[0], cc) < avail {
                b[0][cc]
            } else {
                a[0][cc]
            }),
        forall|cc: int|
            0 <= cc < a[0].len() && a[0][cc] is Empty && empties_before(a[0], cc) < avail
                ==> colored(#[trigger] b[0][cc]),
        0 <= c <= a[0].len(),
    ensures
        grid_colored_cols(b, c) == grid_colored_cols(a, c) + filled_before(a[0], avail, c),
    decreases c,
{
    if c > 0 {
        lemma_gcc_add_row(a, b, avail, c - 1);
        let ca = col_seq(a, c - 1);
        let cb = col_seq(b, c - 1);
        assert forall|j: int| 1 <= j < ca.len() implies ca[j] == cb[j] by {
            assert(ca[j] == a[j][c - 1]);
            assert(cb[j] == b[j][c - 1]);
        }
        assert(ca[0] == a[0][c - 1]);
        assert(cb[0] == b[0][c - 1]);
        lemma_row_colored_head(ca, cb);
    }
}

/// One gravity step keeps the total token count.
pub proof fn lemma_gcc_gstep(a: Seq<Seq<Cell>>, b: Seq<Seq<Cell>>, w: int)
    requires
        forall|c: int|
            0 <= c < w ==> col_seq(b, c) == crate::gravity::gstep(#[trigger] col_seq(a, c)),
    ensures
        grid_colored_cols(b, w) == grid_colored_cols(a, w),
{
    assert forall|c: int| 0 <= c < w implies row_colored(#[trigger] col_seq(b, c)) == row_colored(
        col_seq(a, c),
    ) by {
        crate::gravity::lemma_gstep_down_facts(col_seq(a, c), col_seq(a, c).len() - 1, 1);
        lemma_row_colored_via(col_seq(a, c));
        lemma_row_colored_via(col_seq(b, c));
    }
    lemma_gcc_counts(b, a, w);
}

/// Bridge one refill call to token conservation: the grid's token count
/// grows by exactly the number of supply colors the call consumed.
pub proof fn lemma_add_gcc(
    a: Seq<Seq<Cell>>,
    b: Seq<Seq<Cell>>,
    supply: Seq<Color>,
    n0: int,
    n1: int,
    w: int,
)
    requires
        a.len() == b.len(),
        a.len() >= 1,
        forall|r: int| 1 <= r < a.len() ==> a[r] == b[r],
        forall|r: int| 0 <= r < a.len() ==> (#[trigger] a[r]).len() == w,
        forall|r: int| 0 <= r < b.len() ==> (#[trigger] b[r]).len() == w,
        0 <= n0 <= supply.len(),
        forall|cc: int|
            0 <= cc < w ==> #[trigger] b[0][cc] == (if a[0][cc] is Empty && n0 + empties_before(
                a[0],
                cc,
            ) < supply.len() {
                Cell::Normal(supply[n0 + empties_before(a[0], cc)])
            } else {
                a[0][cc]
            }),
        n1 == n0 + (if empties_before(a[0], w) <= supply.len() - n0 {
            empties_before(a[0], w)
        } else {
            supply.len() - n0
        }),
    ensures
        grid_colored_cols(b, w) == grid_colored_cols(a, w) + (n1 - n0),
{
    let avail = supply.len() - n0;
    assert forall|cc: int|
        0 <= cc < a[0].len() implies #[trigger] b[0][cc] == (if a[0][cc] is Empty
        && empties_before(a[0], cc) < avail {
        b[0][cc]
    } else {
        a[0][cc]
    }) by {}
    assert forall|cc: int|
        0 <= cc < a[0].len() && a[0][cc] is Empty && empties_before(a[0], cc) < avail implies colored(
        #[trigger] b[0][cc],
    ) by {}
    lemma_gcc_add_row(a, b, avail, w);
    lemma_filled_is_min(a[0], avail, w);
}

/// A positive column total names a column with a match.
pub proof fn lemma_pos_col(cells: Seq<Seq<Cell>>, c: int, h: int)
    requires
        0 <= c,
        h == cells.len(),
        cols_len_upto(cells, c) > 0,
    ensures
        exists|c2: int| 0 <= c2 < c && line_match_len(#[trigger] col_seq(cells, c2)) > 0,
    decreases c,
{
    if c > 0 {
        lemma_upto_bounds(col_seq(cells, c - 1), h);
        if line_match_len(col_seq(cells, c - 1)) > 0 {
        } else {
            lemma_pos_col(cells, c - 1, h);
        }
    }
}

/// A positive row total names a row with a match.
pub proof fn lemma_pos_row(cells: Seq<Seq<Cell>>, r: int, w: int)
    requires
        0 <= r <= cells.len(),
        forall|i: int| 0 <= i < cells.len() ==> (#[trigger] cells[i]).len() == w,
        rows_len_upto(cells, r) > 0,
    ensures
        exists|r2: int| 0 <= r2 < r && line_match_len(#[trigger] cells[r2]) > 0,
    decreases r,
{
    if r > 0 {
        lemma_upto_bounds(cells[r - 1], w);
        if line_match_len(cells[r - 1]) > 0 {
        } else {
            lemma_pos_row(cells, r - 1, w);
        }
    }
}

/// A line with positive matched length has a match end.
pub proof fn lemma_pos_line(line: Seq<Cell>)
    requires
        line_match_len(line) > 0,
    ensures
        exists|e: int| is_match_end(line, e),
{
    if forall|e: int| !is_match_end(line, e) {
        crate::scan::lemma_no_end_zero(line, line.len() as int);
    }
}

/// After a gravity step on an unmarked grid, no cell is marked, and any
/// column whose top cell holds a token is settled (gravity never refills the
/// top row, so a token can only still be there if the column is full).
/// One speculative exchange of the move evaluator: the cell at `(r, c)`
/// exchanged with its orthogonal neighbor in direction `d`, the directions
/// ordered: next column, previous column, next row, previous row.
pub open spec fn cand_move(r: int, c: int, d: int) -> (int, int, int, int) {
    if d == 0 {
        (r, c, r, c + 1)
    } else if d == 1 {
        (r, c, r, c - 1)
    } else if d == 2 {
        (r, c, r + 1, c)
    } else {
        (r, c, r - 1, c)
    }
}

/// The candidate's neighbor lies inside the grid (no wraparound).
pub open spec fn cand_valid(h: int, w: int, r: int, c: int, d: int) -> bool {
    0 <= r < h && 0 <= c < w && 0 <= d < 4 && 0 <= cand_move(r, c, d).2 < h && 0 <= cand_move(
        r,
        c,
        d,
    ).3 < w
}

/// How many Match records a full scan reports right after the speculative
/// exchange.
#[verifier::opaque]
pub open spec fn cand_count(cells: Seq<Seq<Cell>>, w: int, r: int, c: int, d: int) -> int {
    total_match_count(
        swap_spec(
            cells,
            cand_move(r, c, d).0,
            cand_move(r, c, d).1,
            cand_move(r, c, d).2,
            cand_move(r, c, d).3,
        ),
        w,
    )
}

/// The evaluator's iteration order: columns, then rows, then directions.
pub open spec fn cand_before(c1: int, r1: int, d1: int, c2: int, r2: int, d2: int) -> bool {
    c1 < c2 || (c1 == c2 && (r1 < r2 || (r1 == r2 && d1 < d2)))
}

/// The evaluator's running state is correct for every candidate strictly
/// before position `(cp, rp, dp)`: with no match seen the zero move is held;
/// otherwise the held move is the first candidate reaching the best count.
pub open spec fn eval_inv(
    cells: Seq<Seq<Cell>>,
    h: int,
    w: int,
    cp: int,
    rp: int,
    dp: int,
    best_count: int,
    best: (usize, usize, usize, usize),
    bw: (int, int, int),
) -> bool {
    &&& best_count >= 0
    &&& (best_count == 0 ==> best == (0usize, 0usize, 0usize, 0usize) && forall|
        rr: int,
        cc: int,
        dd: int,
    |
        cand_valid(h, w, rr, cc, dd) && cand_before(cc, rr, dd, cp, rp, dp)
            ==> #[trigger] cand_count(cells, w, rr, cc, dd) == 0)
    &&& (best_count > 0 ==> {
        &&& cand_valid(h, w, bw.0, bw.1, bw.2)
        &&& cand_before(bw.1, bw.0, bw.2, cp, rp, dp)
        &&& cand_count(cells, w, bw.0, bw.1, bw.2) == best_count
        &&& cand_move(bw.0, bw.1, bw.2) == (
            best.0 as int,
            best.1 as int,
            best.2 as int,
            best.3 as int,
        )
        &&& forall|rr: int, cc: int, dd: int|
            cand_valid(h, w, rr, cc, dd) && cand_before(cc, rr, dd, cp, rp, dp)
                ==> #[trigger] cand_count(cells, w, rr, cc, dd) <= best_count
        &&& forall|rr: int, cc: int, dd: int|
            cand_valid(h, w, rr, cc, dd) && cand_before(cc, rr, dd, bw.1, bw.0, bw.2)
                ==> #[trigger] cand_count(cells, w, rr, cc, dd) < best_count
    })
}

pub proof fn lemma_refill_shape(oldc: Seq<Seq<Cell>>, newc: Seq<Seq<Cell>>, w: int, h: int)
    requires
        oldc.len() == h,
        newc.len() == h,
        h >= 1,
        forall|i: int| 0 <= i < h ==> (#[trigger] oldc[i]).len() == w,
        forall|i: int| 0 <= i < h ==> (#[trigger] newc[i]).len() == w,
        forall|c: int|
            0 <= c < w ==> col_seq(newc, c) == crate::gravity::gstep(#[trigger] col_seq(oldc, c)),
        no_deleting(oldc),
    ensures
        no_deleting(newc),
        forall|c: int|
            0 <= c < w && colored(#[trigger] newc[0][c]) ==> crate::gravity::settled(
                col_seq(newc, c),
            ),
{
    assert forall|rr: int, cc: int|
        0 <= rr < newc.len() && 0 <= cc < newc[rr].len() implies !((
    #[trigger] newc[rr][cc]) is Deleting) by {
        assert forall|j: int|
            0 <= j < col_seq(oldc, cc).len() implies !((#[trigger] col_seq(oldc, cc)[j]) is Deleting) by {
            assert(col_seq(oldc, cc)[j] == oldc[j][cc]);
        }
        crate::gravity::lemma_gstep_down_nd(col_seq(oldc, cc), col_seq(oldc, cc).len() - 1, 1);
        assert(newc[rr][cc] == col_seq(newc, cc)[rr]);
    }
    assert forall|c: int|
        0 <= c < w && colored(#[trigger] newc[0][c]) implies crate::gravity::settled(
        col_seq(newc, c),
    ) by {
        assert(col_seq(newc, c)[0] == newc[0][c]);
        crate::gravity::lemma_gstep_top(col_seq(oldc, c));
    }
}

pub proof fn lemma_mul_mono(a: int, b: int, m: int)
    requires
        0 <= a <= b,
        m >= 0,
    ensures
        a * m <= b * m,
{
    assert(a * m <= b * m) by (nonlinear_arith)
        requires
            0 <= a <= b,
            m >= 0,
    ;
}

pub proof fn lemma_mul_step(a: int, m: int)
    ensures
        (a + 1) * m == a * m + m,
{
    assert((a + 1) * m == a * m + m) by (nonlinear_arith);
}

/// Three times the match count of the first `c` columns is bounded by the
/// cells they hold; the matched length likewise.
pub proof fn lemma_cols_bound(cells: Seq<Seq<Cell>>, c: int, h: int)
    requires
        0 <= c,
        h == cells.len(),
    ensures
        0 <= 3 * cols_count_upto(cells, c),
        3 * cols_count_upto(cells, c) <= cols_len_upto(cells, c),
        cols_len_upto(cells, c) <= c * h,
    decreases c,
{
    if c == 0 {
        assert(0 * h == 0) by (nonlinear_arith);
    } else {
        lemma_cols_bound(cells, c - 1, h);
        lemma_upto_bounds(col_seq(cells, c - 1), h);
        lemma_mul_step(c - 1, h);
    }
}

/// The same bounds for the first `r` rows of a rectangular grid.
pub proof fn lemma_rows_bound(cells: Seq<Seq<Cell>>, r: int, w: int)
    requires
        0 <= r <= cells.len(),
        forall|i: int| 0 <= i < cells.len() ==> (#[trigger] cells[i]).len() == w,
    ensures
        0 <= 3 * rows_count_upto(cells, r),
        3 * rows_count_upto(cells, r) <= rows_len_upto(cells, r),
        rows_len_upto(cells, r) <= r * w,
    decreases r,
{
    if r == 0 {
        assert(0 * w == 0) by (nonlinear_arith);
    } else {
        lemma_rows_bound(cells, r - 1, w);
        lemma_upto_bounds(cells[r - 1], w);
        lemma_mul_step(r - 1, w);
    }
}

/// The number of empty cells among the first `c` positions of a row.
pub open spec fn empties_before(row: Seq<Cell>, c: int) -> int
    decreases c,
{
    if c <= 0 {
        0
    } else {
        empties_before(row, c - 1) + if row[c - 1] is Empty {
            1int
        } else {
            0int
        }
    }
}

pub proof fn lemma_empties_nonneg(row: Seq<Cell>, c: int)
    ensures
        0 <= empties_before(row, c) <= if c >= 0 {
            c
        } else {
            0int
        },
    decreases c,
{
    if c > 0 {
        lemma_empties_nonneg(row, c - 1);
    }
}

impl CellGrid {
    /// Refill the top row: every empty cell of row 0 is filled, left to
    /// right, with an active tile of the next color the supply offers, while
    /// the supply lasts. Returns whether row 0 had any empty cell at all
    /// (whether or not it could be filled).
    pub fn add_element_row(&mut self, supply: &Vec<Color>, next: &mut usize) -> (wanted: bool)
        requires
            old(self).wf(),
            old(self).height_spec() >= 1,
            *old(next) <= supply@.len(),
        ensures
            final(self).wf(),
            final(self).width_spec() == old(self).width_spec(),
            final(self).height_spec() == old(self).height_spec(),
            final(self).score_spec() == old(self).score_spec(),
            *final(next) <= supply@.len(),
            wanted == (empties_before(old(self).cells()[0], old(self).width_spec() as int) > 0),
            forall|r: int|
                1 <= r < old(self).height_spec() ==> final(self).cells()[r] == old(self).cells()[r],
            forall|c: int|
                0 <= c < old(self).width_spec() ==> final(self).cells()[0][c] == (if old(
                    self,
                ).cells()[0][c] is Empty && *old(next) + empties_before(old(self).cells()[0], c)
                    < supply@.len() {
                    Cell::Normal(
                        supply@[*old(next) + empties_before(old(self).cells()[0], c)],
                    )
                } else {
                    old(self).cells()[0][c]
                }),
            *final(next) == *old(next) + (if empties_before(
                old(self).cells()[0],
                old(self).width_spec() as int,
            ) <= supply@.len() - *old(next) {
                empties_before(old(self).cells()[0], old(self).width_spec() as int)
            } else {
                supply@.len() - *old(next)
            }),
    {
        let w = self.width();
        let mut wanted = false;
        let mut c: usize = 0;
        while c < w
            invariant
                self.wf(),
                w == self.width_spec(),
                self.height_spec() == old(self).height_spec(),
                self.width_spec() == old(self).width_spec(),
                self.score_spec() == old(self).score_spec(),
                old(self).height_spec() >= 1,
                c <= w,
                *old(next) <= supply@.len(),
                *next <= supply@.len(),
                wanted == (empties_before(old(self).cells()[0], c as int) > 0),
                forall|r: int|
                    1 <= r < old(self).height_spec() ==> self.cells()[r] == old(self).cells()[r],
                forall|c2: int|
                    c <= c2 < w ==> self.cells()[0][c2] == old(self).cells()[0][c2],
                forall|c2: int|
                    0 <= c2 < c ==> self.cells()[0][c2] == (if old(self).cells()[0][c2] is Empty
                        && *old(next) + empties_before(old(self).cells()[0], c2) < supply@.len() {
                        Cell::Normal(
                            supply@[*old(next) + empties_before(old(self).cells()[0], c2)],
                        )
                    } else {
                        old(self).cells()[0][c2]
                    }),
                *next == *old(next) + (if empties_before(old(self).cells()[0], c as int)
                    <= supply@.len() - *old(next) {
                    empties_before(old(self).cells()[0], c as int)
                } else {
                    supply@.len() - *old(next)
                }),
            decreases w - c,
        {
            proof {
                lemma_empties_nonneg(old(self).cells()[0], c as int);
            }
            let cur = self.cell_at(0, c);
            let is_empty = match cur {
                Cell::Empty => true,
                _ => false,
            };
            if is_empty {
                wanted = true;
                if *next < supply.len() {
                    let color = supply[*next];
                    self.set_cell(0, c, Cell::Normal(color));
                    *next = *next + 1;
                }
            }
            c = c + 1;
        }
        wanted
    }

    /// Sum the lengths of the matches one line scan reported.
    fn sum_match_lengths(ms: &Vec<Match>, ghost_bound: Ghost<int>) -> (s: usize)
        requires
            matches_len_sum(ms@) <= ghost_bound@ <= usize::MAX,
        ensures
            s == matches_len_sum(ms@),
    {
        let mut s: usize = 0;
        let mut j: usize = 0;
        proof {
            assert(ms@.take(0) =~= Seq::<Match>::empty());
        }
        while j < ms.len()
            invariant
                j <= ms@.len(),
                s == matches_len_sum(ms@.take(j as int)),
                matches_len_sum(ms@) <= ghost_bound@ <= usize::MAX,
            decreases ms@.len() - j,
        {
            proof {
                crate::scan::lemma_matches_sum_step(ms@, j as int);
                crate::scan::lemma_matches_sum_prefix_le(ms@, j as int + 1);
            }
            s = s + ms[j].length;
            j = j + 1;
        }
        proof {
            assert(ms@.take(ms@.len() as int) =~= ms@);
        }
        s
    }

    /// One full deletion pass: scan every column and every row of the grid,
    /// mark every cell of every match for removal, sweep every marked cell
    /// away, and add this pass's points to the score: `n (n + 1) / 2`, where
    /// `n` is the sum of the lengths of all matches found (row and column
    /// matches counted independently). Returns whether anything matched.
    #[verifier::rlimit(100)]
    #[verifier::spinoff_prover]
    pub fn delete_matches(&mut self) -> (found: bool)
        requires
            old(self).wf(),
        ensures
            final(self).wf(),
            final(self).width_spec() == old(self).width_spec(),
            final(self).height_spec() == old(self).height_spec(),
            forall|r: int, c: int|
                0 <= r < old(self).height_spec() && 0 <= c < old(self).width_spec()
                    ==> final(self).cells()[r][c] == delete_spec(old(self).cells(), r, c),
            found == (total_match_len(old(self).cells(), old(self).width_spec() as int) != 0),
            final(self).score_spec() as int == score_after(
                old(self).score_spec(),
                total_match_len(old(self).cells(), old(self).width_spec() as int),
            ),
            old(self).score_spec() <= final(self).score_spec(),
            no_matches(final(self).cells(), old(self).width_spec() as int),
            no_deleting(final(self).cells()),
            grid_colored_cols(final(self).cells(), old(self).width_spec() as int)
                <= grid_colored_cols(old(self).cells(), old(self).width_spec() as int),
            found ==> grid_colored_cols(final(self).cells(), old(self).width_spec() as int)
                < grid_colored_cols(old(self).cells(), old(self).width_spec() as int),
    {
        let h = self.height();
        let w = self.width();
        let ghost cells0 = self.cells();
        proof {
            assert((h as int) * (w as int) == (w as int) * (h as int)) by (nonlinear_arith);
        }

        // scan all columns, then all rows, on the unmarked grid
        let mut col_matches: Vec<Match> = Vec::new();
        let mut n_col: usize = 0;
        let mut c: usize = 0;
        while c < w
            invariant
                self.wf(),
                h == self.height_spec(),
                w == self.width_spec(),
                self.cells() == cells0,
                c <= w,
                n_col == cols_len_upto(cells0, c as int),
                n_col as int <= (c as int) * (h as int),
                (w as int) * (h as int) <= usize::MAX,
                forall|j: int|
                    0 <= j < col_matches@.len() ==> valid_match(
                        (#[trigger] col_matches@[j]).outer_index as int,
                        col_seq(cells0, col_matches@[j].outer_index as int),
                        col_matches@[j],
                    ) && col_matches@[j].outer_index < c,
                forall|c2: int, i: int|
                    0 <= c2 < c && #[trigger] is_match_end(col_seq(cells0, c2), i) ==> exists|
                        j: int,
                    |
                        0 <= j < col_matches@.len() && (#[trigger] col_matches@[j]).outer_index
                            == c2 && col_matches@[j].inner_index == i,
            decreases w - c,
        {
            let column = self.col_vec(c);
            let mut ms = check_line(c, &column);
            proof {
                lemma_cols_bound(cells0, c as int, h as int);
                lemma_upto_bounds(column@, h as int);
                lemma_mul_step(c as int, h as int);
                lemma_mul_mono(c as int + 1, w as int, h as int);
                crate::scan::lemma_matches_sum_nonneg(ms@);
            }
            let s = Self::sum_match_lengths(&ms, Ghost((h as int)));
            let ghost pre = col_matches@;
            let ghost msv = ms@;
            col_matches.append(&mut ms);
            n_col = n_col + s;
            proof {
                assert forall|c2: int, i: int|
                    0 <= c2 < c + 1 && #[trigger] is_match_end(col_seq(cells0, c2), i) implies exists|
                    j: int,
                |
                    0 <= j < col_matches@.len() && (#[trigger] col_matches@[j]).outer_index == c2
                        && col_matches@[j].inner_index == i by {
                    if c2 < c {
                        let j = choose|j: int|
                            0 <= j < pre.len() && (#[trigger] pre[j]).outer_index == c2
                                && pre[j].inner_index == i;
                        assert(col_matches@[j] == pre[j]);
                    } else {
                        assert(exists|k2: int|
                            0 <= k2 < msv.len() && (#[trigger] msv[k2]).inner_index == i) by {
                            assert(is_match_end(column@, i));
                        }
                        let k2 = choose|k2: int|
                            0 <= k2 < msv.len() && (#[trigger] msv[k2]).inner_index == i;
                        assert(col_matches@[pre.len() + k2] == msv[k2]);
                        assert(msv[k2].outer_index == c2);
                    }
                }
            }
            c = c + 1;
        }

        let mut row_matches: Vec<Match> = Vec::new();
        let mut n_row: usize = 0;
        let mut r: usize = 0;
        while r < h
            invariant
                self.wf(),
                h == self.height_spec(),
                w == self.width_spec(),
                self.cells() == cells0,
                r <= h,
                n_row == rows_len_upto(cells0, r as int),
                n_row as int <= (r as int) * (w as int),
                (w as int) * (h as int) <= usize::MAX,
                (h as int) * (w as int) <= usize::MAX,
                forall|j: int|
                    0 <= j < row_matches@.len() ==> valid_match(
                        (#[trigger] row_matches@[j]).outer_index as int,
                        cells0[row_matches@[j].outer_index as int],
                        row_matches@[j],
                    ) && row_matches@[j].outer_index < r,
                forall|r2: int, i: int|
                    0 <= r2 < r && #[trigger] is_match_end(cells0[r2], i) ==> exists|j: int|
                        0 <= j < row_matches@.len() && (#[trigger] row_matches@[j]).outer_index
                            == r2 && row_matches@[j].inner_index == i,
            decreases h - r,
        {
            let row = self.row_vec(r);
            let mut ms = check_line(r, &row);
            proof {
                lemma_rows_bound(cells0, r as int, w as int);
                lemma_upto_bounds(row@, w as int);
                lemma_mul_step(r as int, w as int);
                lemma_mul_mono(r as int + 1, h as int, w as int);
                crate::scan::lemma_matches_sum_nonneg(ms@);
            }
            let s = Self::sum_match_lengths(&ms, Ghost((w as int)));
            let ghost pre = row_matches@;
            let ghost msv = ms@;
            row_matches.append(&mut ms);
            n_row = n_row + s;
            proof {
                assert forall|r2: int, i: int|
                    0 <= r2 < r + 1 && #[trigger] is_match_end(cells0[r2], i) implies exists|
                    j: int,
                |
                    0 <= j < row_matches@.len() && (#[trigger] row_matches@[j]).outer_index == r2
                        && row_matches@[j].inner_index == i by {
                    if r2 < r {
                        let j = choose|j: int|
                            0 <= j < pre.len() && (#[trigger] pre[j]).outer_index == r2
                                && pre[j].inner_index == i;
                        assert(row_matches@[j] == pre[j]);
                    } else {
                        assert(exists|k2: int|
                            0 <= k2 < msv.len() && (#[trigger] msv[k2]).inner_index == i) by {
                            assert(is_match_end(row@, i));
                        }
                        let k2 = choose|k2: int|
                            0 <= k2 < msv.len() && (#[trigger] msv[k2]).inner_index == i;
                        assert(row_matches@[pre.len() + k2] == msv[k2]);
                    }
                }
            }
            r = r + 1;
        }

        // mark the span of every column match
        let mut k: usize = 0;
        while k < col_matches.len()
            invariant
                self.wf(),
                h == self.height_spec(),
                w == self.width_spec(),
                self.score_spec() == old(self).score_spec(),
                cells0.len() == h,
                forall|rr: int| 0 <= rr < h ==> (#[trigger] cells0[rr]).len() == w,
                k <= col_matches@.len(),
                forall|j: int|
                    0 <= j < col_matches@.len() ==> valid_match(
                        (#[trigger] col_matches@[j]).outer_index as int,
                        col_seq(cells0, col_matches@[j].outer_index as int),
                        col_matches@[j],
                    ) && col_matches@[j].outer_index < w,
                self.cells() == mark_cols_upto(cells0, col_matches@, k as int),
            decreases col_matches@.len() - k,
        {
            let m = col_matches[k];
            let ghost base = mark_cols_upto(cells0, col_matches@, k as int);
            proof {
                lemma_run_len_le(col_seq(cells0, m.outer_index as int), m.inner_index as int);
                lemma_mark_cols_pointwise(cells0, col_matches@, k as int);
                assert(self.cells() =~~= mark_span_col_upto(
                    base,
                    m,
                    m.inner_index - m.length,
                ));
            }
            let start = m.inner_index - m.length;
            let mut x = start;
            while x < m.inner_index
                invariant
                    self.wf(),
                    h == self.height_spec(),
                    w == self.width_spec(),
                    self.score_spec() == old(self).score_spec(),
                    cells0.len() == h,
                    forall|rr: int| 0 <= rr < h ==> (#[trigger] cells0[rr]).len() == w,
                    base == mark_cols_upto(cells0, col_matches@, k as int),
                    base.len() == h,
                    forall|rr: int| 0 <= rr < h ==> (#[trigger] base[rr]).len() == w,
                    k < col_matches@.len(),
                    m == col_matches@[k as int],
                    valid_match(m.outer_index as int, col_seq(cells0, m.outer_index as int), m),
                    m.outer_index < w,
                    m.inner_index <= h,
                    start == m.inner_index - m.length,
                    start <= x <= m.inner_index,
                    self.cells() == mark_span_col_upto(base, m, x as int),
                decreases m.inner_index - x,
            {
                proof {
                    lemma_run_struct(
                        col_seq(cells0, m.outer_index as int),
                        m.inner_index as int,
                        x as int,
                    );
                    assert(col_seq(cells0, m.outer_index as int)[x as int]
                        == cells0[x as int][m.outer_index as int]);
                    lemma_mark_cols_pointwise(cells0, col_matches@, k as int);
                    assert(base[x as int][m.outer_index as int] == cells0[x as int][m.outer_index as int]
                        || base[x as int][m.outer_index as int] == deleting_of(
                        cells0[x as int][m.outer_index as int]));
                }
                let ghost prev = self.cells();
                let mut cell = self.cell_at(x, m.outer_index);
                proof {
                    assert(cell == base[x as int][m.outer_index as int]);
                    assert(colored(cell));
                }
                cell.to_deleting();
                self.set_cell(x, m.outer_index, cell);
                proof {
                    assert(cell == deleting_of(base[x as int][m.outer_index as int]));
                    assert(self.cells() =~~= mark_span_col_upto(base, m, x as int + 1));
                }
                x = x + 1;
            }
            proof {
                assert(self.cells() == mark_span_col(base, m));
                assert(mark_cols_upto(cells0, col_matches@, k as int + 1) == mark_span_col(
                    base,
                    m,
                ));
            }
            k = k + 1;
        }
        // mark the span of every row match
        let ghost colmarks = col_matches@;
        let ghost base0 = mark_cols_upto(cells0, colmarks, colmarks.len() as int);
        proof {
            lemma_mark_cols_pointwise(cells0, colmarks, colmarks.len() as int);
        }
        let mut k2: usize = 0;
        while k2 < row_matches.len()
            invariant
                self.wf(),
                h == self.height_spec(),
                w == self.width_spec(),
                self.score_spec() == old(self).score_spec(),
                cells0.len() == h,
                forall|rr: int| 0 <= rr < h ==> (#[trigger] cells0[rr]).len() == w,
                base0 == mark_cols_upto(cells0, colmarks, colmarks.len() as int),
                base0.len() == h,
                forall|rr: int| 0 <= rr < h ==> (#[trigger] base0[rr]).len() == w,
                forall|rr: int, cc: int|
                    0 <= rr < h && 0 <= cc < w ==> #[trigger] base0[rr][cc] == cells0[rr][cc]
                        || base0[rr][cc] == deleting_of(cells0[rr][cc]),
                k2 <= row_matches@.len(),
                forall|j: int|
                    0 <= j < row_matches@.len() ==> valid_match(
                        (#[trigger] row_matches@[j]).outer_index as int,
                        cells0[row_matches@[j].outer_index as int],
                        row_matches@[j],
                    ) && row_matches@[j].outer_index < h,
                self.cells() == mark_rows_upto(base0, row_matches@, k2 as int),
            decreases row_matches@.len() - k2,
        {
            let m = row_matches[k2];
            let ghost base = mark_rows_upto(base0, row_matches@, k2 as int);
            proof {
                lemma_run_len_le(cells0[m.outer_index as int], m.inner_index as int);
                lemma_mark_rows_pointwise(base0, row_matches@, k2 as int);
                assert(self.cells() =~~= mark_span_row_upto(
                    base,
                    m,
                    m.inner_index - m.length,
                ));
            }
            let start = m.inner_index - m.length;
            let mut y = start;
            while y < m.inner_index
                invariant
                    self.wf(),
                    h == self.height_spec(),
                    w == self.width_spec(),
                    self.score_spec() == old(self).score_spec(),
                    cells0.len() == h,
                    forall|rr: int| 0 <= rr < h ==> (#[trigger] cells0[rr]).len() == w,
                    base0.len() == h,
                    forall|rr: int| 0 <= rr < h ==> (#[trigger] base0[rr]).len() == w,
                    forall|rr: int, cc: int|
                        0 <= rr < h && 0 <= cc < w ==> #[trigger] base0[rr][cc] == cells0[rr][cc]
                            || base0[rr][cc] == deleting_of(cells0[rr][cc]),
                    base == mark_rows_upto(base0, row_matches@, k2 as int),
                    base.len() == h,
                    forall|rr: int| 0 <= rr < h ==> (#[trigger] base[rr]).len() == w,
                    forall|rr: int, cc: int|
                        0 <= rr < h && 0 <= cc < w ==> #[trigger] base[rr][cc] == base0[rr][cc]
                            || base[rr][cc] == deleting_of(base0[rr][cc]),
                    k2 < row_matches@.len(),
                    m == row_matches@[k2 as int],
                    valid_match(m.outer_index as int, cells0[m.outer_index as int], m),
                    m.outer_index < h,
                    m.inner_index <= w,
                    start == m.inner_index - m.length,
                    start <= y <= m.inner_index,
                    self.cells() == mark_span_row_upto(base, m, y as int),
                decreases m.inner_index - y,
            {
                proof {
                    lemma_run_struct(
                        cells0[m.outer_index as int],
                        m.inner_index as int,
                        y as int,
                    );
                }
                let ghost prev = self.cells();
                let mut cell = self.cell_at(m.outer_index, y);
                proof {
                    assert(cell == base[m.outer_index as int][y as int]);
                    assert(colored(cells0[m.outer_index as int][y as int]));
                    assert(colored(cell));
                }
                cell.to_deleting();
                self.set_cell(m.outer_index, y, cell);
                proof {
                    assert(cell == deleting_of(base[m.outer_index as int][y as int]));
                    assert(self.cells() =~~= mark_span_row_upto(base, m, y as int + 1));
                }
                y = y + 1;
            }
            proof {
                assert(self.cells() == mark_span_row(base, m));
                assert(mark_rows_upto(base0, row_matches@, k2 as int + 1) == mark_span_row(
                    base,
                    m,
                ));
            }
            k2 = k2 + 1;
        }
        proof {
            lemma_mark_rows_pointwise(base0, row_matches@, row_matches@.len() as int);
            assert forall|rr: int, cc: int|
                0 <= rr < h && 0 <= cc < w implies #[trigger] self.cells()[rr][cc] == (if covered_col(
                colmarks,
                colmarks.len() as int,
                rr,
                cc,
            ) || covered_row(row_matches@, row_matches@.len() as int, rr, cc) {
                deleting_of(cells0[rr][cc])
            } else {
                cells0[rr][cc]
            }) by {
                assert(self.cells()[rr][cc] == (if covered_row(row_matches@,
                    row_matches@.len() as int, rr, cc) {
                    deleting_of(base0[rr][cc])
                } else {
                    base0[rr][cc]
                }));
                assert(base0[rr][cc] == (if covered_col(colmarks, colmarks.len() as int, rr, cc) {
                    deleting_of(cells0[rr][cc])
                } else {
                    cells0[rr][cc]
                }));
            }
        }
        // sweep: every marked cell becomes empty
        let ghost marked = self.cells();
        let ghost rowmarks = row_matches@;
        let mut sr: usize = 0;
        while sr < h
            invariant
                self.wf(),
                h == self.height_spec(),
                w == self.width_spec(),
                self.score_spec() == old(self).score_spec(),
                sr <= h,
                marked.len() == h,
                forall|rr: int| 0 <= rr < h ==> (#[trigger] marked[rr]).len() == w,
                forall|rr: int, cc: int|
                    0 <= rr < h && 0 <= cc < w ==> self.cells()[rr][cc] == (if rr < sr
                        && marked[rr][cc] is Deleting {
                        Cell::Empty
                    } else {
                        marked[rr][cc]
                    }),
            decreases h - sr,
        {
            let mut sc: usize = 0;
            while sc < w
                invariant
                    self.wf(),
                    h == self.height_spec(),
                    w == self.width_spec(),
                    self.score_spec() == old(self).score_spec(),
                    sr < h,
                    sc <= w,
                    marked.len() == h,
                    forall|rr: int| 0 <= rr < h ==> (#[trigger] marked[rr]).len() == w,
                    forall|rr: int, cc: int|
                        0 <= rr < h && 0 <= cc < w ==> self.cells()[rr][cc] == (if (rr < sr || (rr
                            == sr && cc < sc)) && marked[rr][cc] is Deleting {
                            Cell::Empty
                        } else {
                            marked[rr][cc]
                        }),
                decreases w - sc,
            {
                let cur = self.cell_at(sr, sc);
                let is_del = match cur {
                    Cell::Deleting(_) => true,
                    _ => false,
                };
                if is_del {
                    self.set_cell(sr, sc, Cell::Empty);
                }
                sc = sc + 1;
            }
            sr = sr + 1;
        }

        // the final grid is exactly the deletion of every match
        proof {
            assert forall|rr: int, cc: int| 0 <= rr < h && 0 <= cc < w implies self.cells()[rr][cc]
                == delete_spec(cells0, rr, cc) by {
                assert(covered_col(colmarks, colmarks.len() as int, rr, cc) == in_match(
                    col_seq(cells0, cc),
                    rr,
                )) by {
                    reveal(covered_col);
                    if covered_col(colmarks, colmarks.len() as int, rr, cc) {
                        let j = choose|j: int|
                            0 <= j < colmarks.len() && (#[trigger] colmarks[j]).outer_index == cc
                                && colmarks[j].inner_index - colmarks[j].length <= rr
                                < colmarks[j].inner_index;
                        assert(is_match_end(
                            col_seq(cells0, cc),
                            colmarks[j].inner_index as int,
                        ));
                    }
                    if in_match(col_seq(cells0, cc), rr) {
                        let e = choose|e: int|
                            is_match_end(col_seq(cells0, cc), e) && e - run_len(
                                col_seq(cells0, cc),
                                e,
                            ) <= rr < e;
                        let j = choose|j: int|
                            0 <= j < colmarks.len() && (#[trigger] colmarks[j]).outer_index == cc
                                && colmarks[j].inner_index == e;
                        assert(colmarks[j].length == run_len(col_seq(cells0, cc), e));
                        assert(covered_col(colmarks, colmarks.len() as int, rr, cc));
                    }
                }
                assert(covered_row(rowmarks, rowmarks.len() as int, rr, cc) == in_match(
                    cells0[rr],
                    cc,
                )) by {
                    reveal(covered_row);
                    if covered_row(rowmarks, rowmarks.len() as int, rr, cc) {
                        let j = choose|j: int|
                            0 <= j < rowmarks.len() && (#[trigger] rowmarks[j]).outer_index == rr
                                && rowmarks[j].inner_index - rowmarks[j].length <= cc
                                < rowmarks[j].inner_index;
                        assert(is_match_end(cells0[rr], rowmarks[j].inner_index as int));
                    }
                    if in_match(cells0[rr], cc) {
                        let e = choose|e: int|
                            is_match_end(cells0[rr], e) && e - run_len(cells0[rr], e) <= cc < e;
                        let j = choose|j: int|
                            0 <= j < rowmarks.len() && (#[trigger] rowmarks[j]).outer_index == rr
                                && rowmarks[j].inner_index == e;
                        assert(rowmarks[j].length == run_len(cells0[rr], e));
                        assert(covered_row(rowmarks, rowmarks.len() as int, rr, cc));
                    }
                }
                if in_match(col_seq(cells0, cc), rr) {
                    let e = choose|e: int|
                        is_match_end(col_seq(cells0, cc), e) && e - run_len(
                            col_seq(cells0, cc),
                            e,
                        ) <= rr < e;
                    lemma_run_struct(col_seq(cells0, cc), e, rr);
                    assert(colored(cells0[rr][cc]));
                }
                if in_match(cells0[rr], cc) {
                    let e = choose|e: int|
                        is_match_end(cells0[rr], e) && e - run_len(cells0[rr], e) <= cc < e;
                    lemma_run_struct(cells0[rr], e, cc);
                    assert(colored(cells0[rr][cc]));
                }
            }
        }

        // no match survives a full deletion pass, and nothing stays marked
        let ghost fin = self.cells();
        proof {
            assert(fin.len() == h);
            assert(forall|rr: int| 0 <= rr < h ==> (#[trigger] fin[rr]).len() == w);
            assert(forall|rr: int, cc: int|
                0 <= rr < h && 0 <= cc < w ==> #[trigger] fin[rr][cc] == delete_spec(
                    cells0,
                    rr,
                    cc,
                ));
            assert forall|rr: int| 0 <= rr < fin.len() implies line_match_count(
                #[trigger] fin[rr],
            ) == 0 by {
                assert forall|j: int| 0 <= j < w implies #[trigger] fin[rr][j] == cells0[rr][j]
                    || fin[rr][j] is Empty by {
                    assert(fin[rr][j] == delete_spec(cells0, rr, j));
                }
                assert forall|j: int|
                    0 <= j < w && in_match(cells0[rr], j) implies (#[trigger] fin[rr][j]) is Empty by {
                    assert(fin[rr][j] == delete_spec(cells0, rr, j));
                }
                lemma_delete_no_match(cells0[rr], fin[rr]);
            }
            assert forall|cc: int| 0 <= cc < w implies line_match_count(
                #[trigger] col_seq(fin, cc),
            ) == 0 by {
                assert forall|j: int|
                    0 <= j < h implies #[trigger] col_seq(fin, cc)[j] == col_seq(cells0, cc)[j]
                    || col_seq(fin, cc)[j] is Empty by {
                    assert(col_seq(fin, cc)[j] == fin[j][cc]);
                    assert(col_seq(cells0, cc)[j] == cells0[j][cc]);
                    assert(fin[j][cc] == delete_spec(cells0, j, cc));
                }
                assert forall|j: int|
                    0 <= j < h && in_match(col_seq(cells0, cc), j) implies (#[trigger] col_seq(
                    fin,
                    cc,
                )[j]) is Empty by {
                    assert(col_seq(fin, cc)[j] == fin[j][cc]);
                    assert(fin[j][cc] == delete_spec(cells0, j, cc));
                }
                lemma_delete_no_match(col_seq(cells0, cc), col_seq(fin, cc));
            }
            assert(no_deleting(fin)) by {
                assert forall|rr: int, cc: int|
                    0 <= rr < fin.len() && 0 <= cc < fin[rr].len() implies !((
                #[trigger] fin[rr][cc]) is Deleting) by {
                    assert(fin[rr][cc] == delete_spec(cells0, rr, cc));
                }
            }
            // the pass only removes colored cells
            assert forall|i: int, j: int|
                0 <= i < cells0.len() && 0 <= j < cells0[i].len() implies #[trigger] fin[i][j]
                == cells0[i][j] || fin[i][j] is Empty by {
                assert(fin[i][j] == delete_spec(cells0, i, j));
            }
            assert(forall|rr: int| 0 <= rr < h ==> (#[trigger] fin[rr]).len() == w);
            lemma_gcc_le(cells0, fin, w as int);
            if n_col as int + n_row as int != 0 {
                if n_col > 0 {
                    lemma_pos_col(cells0, w as int, h as int);
                    let c2 = choose|c2: int|
                        0 <= c2 < w && line_match_len(#[trigger] col_seq(cells0, c2)) > 0;
                    lemma_pos_line(col_seq(cells0, c2));
                    let e = choose|e: int| is_match_end(col_seq(cells0, c2), e);
                    lemma_run_struct(col_seq(cells0, c2), e, e - 1);
                    lemma_run_len_le(col_seq(cells0, c2), e);
                    assert(in_match(col_seq(cells0, c2), e - 1));
                    assert(fin[e - 1][c2] == delete_spec(cells0, e - 1, c2));
                    assert(col_seq(cells0, c2)[e - 1] == cells0[e - 1][c2]);
                    lemma_gcc_lt(cells0, fin, w as int, e - 1, c2);
                } else {
                    lemma_pos_row(cells0, h as int, w as int);
                    let r2 = choose|r2: int|
                        0 <= r2 < h && line_match_len(#[trigger] cells0[r2]) > 0;
                    lemma_pos_line(cells0[r2]);
                    let e = choose|e: int| is_match_end(cells0[r2], e);
                    lemma_run_struct(cells0[r2], e, e - 1);
                    lemma_run_len_le(cells0[r2], e);
                    assert(in_match(cells0[r2], e - 1));
                    assert(fin[r2][e - 1] == delete_spec(cells0, r2, e - 1));
                    lemma_gcc_lt(cells0, fin, w as int, r2, e - 1);
                }
            }
        }

        // score: n (n + 1) / 2 points for total matched length n, saturating
        let ghost n_spec: int = total_match_len(cells0, w as int);
        proof {
            assert(n_col as int + n_row as int == n_spec);
        }
        let n_total: u128 = n_col as u128 + n_row as u128;
        let delta: usize;
        if n_total >= 0x8000_0000_0000_0000u128 {
            proof {
                assert(tri(n_spec) > usize::MAX as int) by (nonlinear_arith)
                    requires
                        n_spec >= 0x8000_0000_0000_0000,
                        tri(n_spec) == n_spec * (n_spec + 1) / 2,
                        usize::MAX as int <= 0xffff_ffff_ffff_ffff,
                ;
            }
            delta = usize::MAX;
        } else {
            proof {
                assert((n_total as int) * (n_total as int + 1) <= u128::MAX as int)
                    by (nonlinear_arith)
                    requires
                        0 <= (n_total as int) && (n_total as int) < 0x8000_0000_0000_0000,
                ;
            }
            let t: u128 = n_total * (n_total + 1) / 2;
            if t > usize::MAX as u128 {
                delta = usize::MAX;
            } else {
                delta = t as usize;
            }
        }
        let found = n_total != 0;
        self.add_score(delta);
        proof {
            assert(self.cells() == fin);
        }
        found
    }

    /// Run the full cascade to quiescence: alternate deletion passes and
    /// gravity until no match remains, then trickle-refill the top row from
    /// the supply, one row per gravity step, and repeat until the grid is
    /// stable. Returns the points earned, whether the stable state was
    /// reached, and how many supply colors were consumed. Falling short of
    /// stability is only ever reported with the whole supply consumed and a
    /// vacancy still open in the top row; and when nothing was deleted, every
    /// consumed color stands in the grid as a token.
    #[verifier::rlimit(100)]
    #[verifier::spinoff_prover]
    pub fn resolve(&mut self, supply: &Vec<Color>) -> (r: (usize, bool, usize))
        requires
            old(self).wf(),
        ensures
            final(self).wf(),
            final(self).width_spec() == old(self).width_spec(),
            final(self).height_spec() == old(self).height_spec(),
            old(self).score_spec() <= final(self).score_spec(),
            r.0 == final(self).score_spec() - old(self).score_spec(),
            r.1 ==> no_matches(final(self).cells(), final(self).width_spec() as int),
            r.1 && grid_settled(old(self).cells(), old(self).width_spec() as int) && no_deleting(
                old(self).cells(),
            ) ==> all_normal(final(self).cells()),
            !r.1 ==> exists|c: int|
                0 <= c < final(self).width_spec() && (#[trigger] final(self).cells()[0][c]) is Empty,
            all_normal(old(self).cells()) && no_matches(
                old(self).cells(),
                old(self).width_spec() as int,
            ) ==> r.1 && final(self).cells() == old(self).cells() && r.0 == 0 && r.2 == 0,
            r.2 <= supply@.len(),
            !r.1 ==> r.2 == supply@.len(),
            no_deleting(final(self).cells()),
            total_match_len(old(self).cells(), old(self).width_spec() as int) > 0 && old(
                self,
            ).score_spec() < usize::MAX ==> old(self).score_spec() < final(self).score_spec(),
            no_deleting(old(self).cells()) && r.0 == 0 && old(self).score_spec() < usize::MAX
                ==> grid_colored_cols(final(self).cells(), old(self).width_spec() as int)
                == grid_colored_cols(old(self).cells(), old(self).width_spec() as int) + r.2,
    {
        let h = self.height();
        let w = self.width();
        let start_score = self.score();
        if h == 0 {
            proof {
                assert forall|c: int| 0 <= c < w implies line_match_count(
                    #[trigger] col_seq(self.cells(), c),
                ) == 0 by {
                    assert(col_seq(self.cells(), c).len() == 0);
                }
                lemma_no_matches_cols_zero(self.cells(), w as int, w as int);
                assert(rows_len_upto(self.cells(), self.cells().len() as int) == 0);
                assert(total_match_len(self.cells(), w as int) == 0);
            }
            return (0, true, 0);
        }
        let mut next: usize = 0;
        loop
            invariant_except_break
                self.cells() == old(self).cells() || (no_deleting(self.cells()) && grid_settled(
                    self.cells(),
                    w as int,
                )),
                (all_normal(old(self).cells()) && no_matches(old(self).cells(), w as int)) ==> (
                self.cells() == old(self).cells() && self.score_spec() == start_score && next
                    == 0),
                (total_match_len(old(self).cells(), w as int) > 0 && old(self).score_spec()
                    < usize::MAX) ==> (start_score < self.score_spec() || (self.cells() == old(
                    self,
                ).cells() && self.score_spec() == start_score)),
                (no_deleting(old(self).cells()) && old(self).score_spec() < usize::MAX) ==> (
                start_score < self.score_spec() || (self.score_spec() == start_score
                    && grid_colored_cols(self.cells(), w as int) == grid_colored_cols(
                    old(self).cells(),
                    w as int,
                ) + next)),
            invariant
                self.wf(),
                h == self.height_spec(),
                w == self.width_spec(),
                self.height_spec() == old(self).height_spec(),
                self.width_spec() == old(self).width_spec(),
                h >= 1,
                next <= supply@.len(),
                start_score == old(self).score_spec(),
                start_score <= self.score_spec(),
            ensures
                self.wf(),
                h == self.height_spec(),
                w == self.width_spec(),
                self.height_spec() == old(self).height_spec(),
                self.width_spec() == old(self).width_spec(),
                start_score <= self.score_spec(),
                next <= supply@.len(),
                no_matches(self.cells(), w as int),
                no_deleting(self.cells()),
                grid_settled(old(self).cells(), w as int) && no_deleting(old(self).cells())
                    ==> all_normal(self.cells()),
                (all_normal(old(self).cells()) && no_matches(old(self).cells(), w as int)) ==> (
                self.cells() == old(self).cells() && self.score_spec() == start_score && next
                    == 0),
                (total_match_len(old(self).cells(), w as int) > 0 && old(self).score_spec()
                    < usize::MAX) ==> start_score < self.score_spec(),
                (no_deleting(old(self).cells()) && old(self).score_spec() < usize::MAX) ==> (
                start_score < self.score_spec() || (self.score_spec() == start_score
                    && grid_colored_cols(self.cells(), w as int) == grid_colored_cols(
                    old(self).cells(),
                    w as int,
                ) + next)),
            decreases supply@.len() - next,
        {
            let ghost main_top = self.cells();
            let ghost sc_top = self.score_spec();
            let ghost next_top = next as int;
            // cascade: delete all matches, settle, repeat until quiescent
            loop
                invariant_except_break
                    self.cells() == main_top || (no_deleting(self.cells()) && grid_settled(
                        self.cells(),
                        w as int,
                    )),
                    (no_matches(main_top, w as int) && no_deleting(main_top)) ==> (self.cells()
                        == main_top && self.score_spec() == sc_top),
                    (total_match_len(main_top, w as int) > 0 && sc_top < usize::MAX) ==> (sc_top
                        < self.score_spec() || (self.cells() == main_top && self.score_spec()
                        == sc_top)),
                    (no_deleting(main_top) && sc_top < usize::MAX) ==> (sc_top
                        < self.score_spec() || (self.score_spec() == sc_top
                        && grid_colored_cols(self.cells(), w as int) == grid_colored_cols(
                        main_top,
                        w as int,
                    ))),
                invariant
                    self.wf(),
                    h == self.height_spec(),
                    w == self.width_spec(),
                    self.height_spec() == old(self).height_spec(),
                    self.width_spec() == old(self).width_spec(),
                    h >= 1,
                    start_score <= self.score_spec(),
                    sc_top <= self.score_spec(),
                    main_top.len() == h,
                    forall|rr: int| 0 <= rr < h ==> (#[trigger] main_top[rr]).len() == w,
                ensures
                    self.wf(),
                    h == self.height_spec(),
                    w == self.width_spec(),
                    self.height_spec() == old(self).height_spec(),
                    self.width_spec() == old(self).width_spec(),
                    start_score <= self.score_spec(),
                    sc_top <= self.score_spec(),
                    no_matches(self.cells(), w as int),
                    no_deleting(self.cells()),
                    (grid_settled(main_top, w as int) && no_deleting(main_top)) ==> grid_settled(
                        self.cells(),
                        w as int,
                    ),
                    (no_matches(main_top, w as int) && no_deleting(main_top)) ==> (self.cells()
                        == main_top && self.score_spec() == sc_top),
                    (total_match_len(main_top, w as int) > 0 && sc_top < usize::MAX) ==> sc_top
                        < self.score_spec(),
                    (no_deleting(main_top) && sc_top < usize::MAX) ==> (sc_top
                        < self.score_spec() || (self.score_spec() == sc_top
                        && grid_colored_cols(self.cells(), w as int) == grid_colored_cols(
                        main_top,
                        w as int,
                    ))),
                decreases grid_colored_cols(self.cells(), w as int),
            {
                proof {
                    lemma_gcc_nonneg(self.cells(), w as int);
                    if no_matches(main_top, w as int) && no_deleting(main_top) {
                        lemma_no_matches_cols_zero(main_top, w as int, w as int);
                        lemma_no_matches_rows_zero(main_top, h as int);
                    }
                }
                let ghost pre = self.cells();
                let found = self.delete_matches();
                proof {
                    lemma_cols_bound(pre, w as int, h as int);
                    lemma_rows_bound(pre, h as int, w as int);
                    if total_match_len(pre, w as int) >= 1 {
                        assert(tri(total_match_len(pre, w as int)) >= 1) by (nonlinear_arith)
                            requires
                                total_match_len(pre, w as int) >= 1,
                                tri(total_match_len(pre, w as int)) == total_match_len(
                                    pre,
                                    w as int,
                                ) * (total_match_len(pre, w as int) + 1) / 2,
                        ;
                    }
                    if !found && no_deleting(pre) {
                        // nothing matched and nothing was marked: a no-op pass
                        assert(total_match_len(pre, w as int) == 0);
                        lemma_cols_bound(pre, w as int, h as int);
                        lemma_rows_bound(pre, h as int, w as int);
                        assert(cols_len_upto(pre, w as int) == 0);
                        assert(rows_len_upto(pre, h as int) == 0);
                        assert forall|rr: int| 0 <= rr < h implies self.cells()[rr] == pre[rr] by {
                            assert forall|cc: int|
                                0 <= cc < w implies self.cells()[rr][cc] == pre[rr][cc] by {
                                assert(self.cells()[rr][cc] == delete_spec(pre, rr, cc));
                                if in_match(pre[rr], cc) {
                                    let e = choose|e: int|
                                        is_match_end(pre[rr], e) && e - run_len(pre[rr], e) <= cc
                                            < e;
                                    lemma_zero_row(pre, h as int, w as int, rr);
                                    lemma_no_matches_no_end(pre[rr], e);
                                }
                                if in_match(col_seq(pre, cc), rr) {
                                    let e = choose|e: int|
                                        is_match_end(col_seq(pre, cc), e) && e - run_len(
                                            col_seq(pre, cc),
                                            e,
                                        ) <= rr < e;
                                    lemma_zero_col(pre, w as int, h as int, cc);
                                    lemma_no_matches_no_end(col_seq(pre, cc), e);
                                }
                                assert(!(pre[rr][cc] is Deleting));
                            }
                            assert(self.cells()[rr] =~= pre[rr]);
                        }
                        assert(self.cells() =~= pre);
                        assert(tri(0) == 0);
                    }
                }
                if !found {
                    break;
                }
                let ghost mid = self.cells();
                let moved = self.do_gravity();
                proof {
                    // gravity keeps every column's tokens and creates no mark
                    assert forall|c: int|
                        0 <= c < w implies row_colored(#[trigger] col_seq(self.cells(), c))
                        == row_colored(col_seq(mid, c)) by {
                        lemma_row_colored_via(col_seq(self.cells(), c));
                        lemma_row_colored_via(col_seq(mid, c));
                    }
                    lemma_gcc_counts(self.cells(), mid, w as int);
                    lemma_gcc_nonneg(self.cells(), w as int);
                    assert(no_deleting(self.cells())) by {
                        assert forall|rr: int, cc: int|
                            0 <= rr < self.cells().len() && 0 <= cc
                            < self.cells()[rr].len() implies !((
                        #[trigger] self.cells()[rr][cc]) is Deleting) by {
                            assert forall|j: int|
                                0 <= j < col_seq(mid, cc).len() implies !((#[trigger] col_seq(
                                mid,
                                cc,
                            )[j]) is Deleting) by {
                                assert(col_seq(mid, cc)[j] == mid[j][cc]);
                            }
                            crate::gravity::lemma_compact_nd(col_seq(mid, cc));
                            assert(self.cells()[rr][cc] == col_seq(self.cells(), cc)[rr]);
                            assert(col_seq(self.cells(), cc) == crate::gravity::compact(
                                col_seq(mid, cc),
                            ));
                        }
                    }
                }
                if !moved {
                    break;
                }
            }
            // refill the top row once; if nothing was needed, the grid is
            // stable and the cascade is over
            let ghost cleared = self.cells();
            let ghost sc_cleared = self.score_spec();
            let before_first = next;
            let wanted = self.add_element_row(supply, &mut next);
            proof {
                lemma_add_gcc(
                    cleared,
                    self.cells(),
                    supply@,
                    before_first as int,
                    next as int,
                    w as int,
                );
                if !wanted {
                    lemma_empties_nonneg(cleared[0], w as int);
                    assert forall|rr: int| 0 <= rr < h implies self.cells()[rr] == cleared[rr] by {
                        if rr == 0 {
                            assert forall|cc: int|
                                0 <= cc < w implies self.cells()[0][cc] == cleared[0][cc] by {
                                lemma_empties_zero(cleared[0], w as int, cc);
                            }
                            assert(self.cells()[0] =~= cleared[0]);
                        }
                    }
                    assert(self.cells() =~= cleared);
                }
            }
            if !wanted {
                proof {
                    // the score and token bookkeeping carried to this break
                    if total_match_len(old(self).cells(), w as int) > 0 && old(self).score_spec()
                        < usize::MAX {
                        if !(start_score < sc_top) {
                            assert(main_top == old(self).cells() && sc_top == start_score);
                            assert(sc_top < sc_cleared);
                        }
                    }
                    if no_deleting(old(self).cells()) && old(self).score_spec() < usize::MAX {
                        if !(start_score < sc_top) {
                            assert(sc_top == start_score && grid_colored_cols(main_top, w as int)
                                == grid_colored_cols(old(self).cells(), w as int) + next_top);
                            assert(no_deleting(main_top));
                        }
                    }
                    // the top row is full; a settled grid with a full top row
                    // is completely full
                    if grid_settled(self.cells(), w as int) && no_deleting(self.cells()) {
                        lemma_empties_nonneg(self.cells()[0], w as int);
                        assert(empties_before(self.cells()[0], w as int) == empties_before(
                            cleared[0],
                            w as int,
                        ));
                        assert forall|rr: int, cc: int|
                            0 <= rr < self.cells().len() && 0 <= cc
                            < self.cells()[rr].len() implies (#[trigger] self.cells()[rr][cc]) is Normal by {
                            let col = col_seq(self.cells(), cc);
                            assert(col[rr] == self.cells()[rr][cc]);
                            assert(col[0] == self.cells()[0][cc]);
                            lemma_empties_zero(self.cells()[0], w as int, cc);
                            if col[rr] is Empty {
                                crate::gravity::lemma_settled_empty_up(col, rr, 0);
                            }
                        }
                    }
                }
                break;
            }
            if next == before_first {
                // the supply is exhausted with a vacancy still open
                proof {
                    lemma_empties_pos(cleared[0], w as int);
                    let j = choose|j: int| 0 <= j < w && (#[trigger] cleared[0][j]) is Empty;
                    lemma_empties_nonneg(cleared[0], j);
                    assert(self.cells()[0][j] == cleared[0][j]);
                    lemma_empties_nonneg(cleared[0], w as int);
                    assert(next == supply@.len());
                    assert forall|rr: int, cc: int|
                        0 <= rr < self.cells().len() && 0 <= cc
                        < self.cells()[rr].len() implies !((
                    #[trigger] self.cells()[rr][cc]) is Deleting) by {
                        if rr >= 1 {
                            assert(self.cells()[rr] == cleared[rr]);
                        }
                    }
                    if total_match_len(old(self).cells(), w as int) > 0 && old(self).score_spec()
                        < usize::MAX {
                        if !(start_score < sc_top) {
                            assert(main_top == old(self).cells() && sc_top == start_score);
                            assert(sc_top < sc_cleared);
                        }
                    }
                    if no_deleting(old(self).cells()) && old(self).score_spec() < usize::MAX {
                        if !(start_score < sc_top) {
                            assert(sc_top == start_score && grid_colored_cols(main_top, w as int)
                                == grid_colored_cols(old(self).cells(), w as int) + next_top);
                            assert(no_deleting(main_top));
                        }
                    }
                }
                let d = self.score() - start_score;
                return (d, false, next);
            }
            proof {
                // a fresh token in a full, quiescent grid is impossible: the
                // stable case was handled before any refill
                if all_normal(old(self).cells()) && no_matches(old(self).cells(), w as int) {
                    lemma_empties_pos(cleared[0], w as int);
                    assert(false);
                }
            }
            let ghost bg = self.cells();
            proof {
                // the refill only writes fresh active tiles
                assert forall|rr: int, cc: int|
                    0 <= rr < bg.len() && 0 <= cc < bg[rr].len() implies !((
                #[trigger] bg[rr][cc]) is Deleting) by {
                    if rr >= 1 {
                        assert(bg[rr] == cleared[rr]);
                    }
                }
            }
            let _ = self.do_gravity_step();
            proof {
                lemma_refill_shape(bg, self.cells(), w as int, h as int);
                lemma_gcc_gstep(bg, self.cells(), w as int);
                if total_match_len(old(self).cells(), w as int) > 0 && old(self).score_spec()
                    < usize::MAX {
                    if !(start_score < sc_top) {
                        assert(main_top == old(self).cells() && sc_top == start_score);
                        assert(sc_top < sc_cleared);
                    }
                }
                if no_deleting(old(self).cells()) && old(self).score_spec() < usize::MAX {
                    if !(start_score < sc_top) {
                        assert(sc_top == start_score && grid_colored_cols(main_top, w as int)
                            == grid_colored_cols(old(self).cells(), w as int) + next_top);
                        assert(no_deleting(main_top));
                        if !(start_score < self.score_spec()) {
                            assert(grid_colored_cols(cleared, w as int) == grid_colored_cols(
                                main_top,
                                w as int,
                            ));
                        }
                    }
                }
            }
            // trickle: keep topping up one row at a time while gravity pulls
            // tokens down from above
            let ghost nfloor = next;
            loop
                invariant
                    self.wf(),
                    h == self.height_spec(),
                    w == self.width_spec(),
                    self.height_spec() == old(self).height_spec(),
                    self.width_spec() == old(self).width_spec(),
                    h >= 1,
                    next <= supply@.len(),
                    nfloor <= next,
                    start_score == old(self).score_spec(),
                    start_score <= self.score_spec(),
                    !(all_normal(old(self).cells()) && no_matches(old(self).cells(), w as int)),
                    no_deleting(self.cells()),
                    forall|c: int|
                        0 <= c < w && colored(#[trigger] self.cells()[0][c]) ==> crate::gravity::settled(
                            col_seq(self.cells(), c),
                        ),
                    (total_match_len(old(self).cells(), w as int) > 0 && old(self).score_spec()
                        < usize::MAX) ==> start_score < self.score_spec(),
                    (no_deleting(old(self).cells()) && old(self).score_spec() < usize::MAX) ==> (
                    start_score < self.score_spec() || (self.score_spec() == start_score
                        && grid_colored_cols(self.cells(), w as int) == grid_colored_cols(
                        old(self).cells(),
                        w as int,
                    ) + next)),
                ensures
                    self.wf(),
                    h == self.height_spec(),
                    w == self.width_spec(),
                    self.height_spec() == old(self).height_spec(),
                    self.width_spec() == old(self).width_spec(),
                    h >= 1,
                    next <= supply@.len(),
                    nfloor <= next,
                    start_score <= self.score_spec(),
                    no_deleting(self.cells()),
                    grid_settled(self.cells(), w as int),
                    (total_match_len(old(self).cells(), w as int) > 0 && old(self).score_spec()
                        < usize::MAX) ==> start_score < self.score_spec(),
                    (no_deleting(old(self).cells()) && old(self).score_spec() < usize::MAX) ==> (
                    start_score < self.score_spec() || (self.score_spec() == start_score
                        && grid_colored_cols(self.cells(), w as int) == grid_colored_cols(
                        old(self).cells(),
                        w as int,
                    ) + next)),
                decreases supply@.len() - next,
            {
                let ghost before_cells = self.cells();
                let before = next;
                let wanted2 = self.add_element_row(supply, &mut next);
                proof {
                    lemma_add_gcc(
                        before_cells,
                        self.cells(),
                        supply@,
                        before as int,
                        next as int,
                        w as int,
                    );
                }
                if !wanted2 {
                    proof {
                        lemma_empties_nonneg(before_cells[0], w as int);
                        assert forall|rr: int|
                            0 <= rr < h implies self.cells()[rr] == before_cells[rr] by {
                            if rr == 0 {
                                assert forall|cc: int|
                                    0 <= cc < w implies self.cells()[0][cc]
                                    == before_cells[0][cc] by {
                                    lemma_empties_zero(before_cells[0], w as int, cc);
                                }
                                assert(self.cells()[0] =~= before_cells[0]);
                            }
                        }
                        assert(self.cells() =~= before_cells);
                        // top row full plus per-column settledness: settled
                        assert forall|c: int| 0 <= c < w implies crate::gravity::settled(
                            #[trigger] col_seq(self.cells(), c),
                        ) by {
                            lemma_empties_zero(self.cells()[0], w as int, c);
                            assert(colored(self.cells()[0][c]));
                        }
                    }
                    break;
                }
                if next == before {
                    proof {
                        lemma_empties_pos(before_cells[0], w as int);
                        let j = choose|j: int|
                            0 <= j < w && (#[trigger] before_cells[0][j]) is Empty;
                        lemma_empties_nonneg(before_cells[0], j);
                        assert(self.cells()[0][j] == before_cells[0][j]);
                        lemma_empties_nonneg(before_cells[0], w as int);
                        assert(next == supply@.len());
                        assert forall|rr: int, cc: int|
                            0 <= rr < self.cells().len() && 0 <= cc
                            < self.cells()[rr].len() implies !((
                        #[trigger] self.cells()[rr][cc]) is Deleting) by {
                            if rr >= 1 {
                                assert(self.cells()[rr] == before_cells[rr]);
                            }
                        }
                    }
                    let d = self.score() - start_score;
                    return (d, false, next);
                }
                let ghost bg2 = self.cells();
                proof {
                    assert forall|rr: int, cc: int|
                        0 <= rr < bg2.len() && 0 <= cc < bg2[rr].len() implies !((
                    #[trigger] bg2[rr][cc]) is Deleting) by {
                        if rr >= 1 {
                            assert(bg2[rr] == before_cells[rr]);
                        }
                    }
                }
                let _ = self.do_gravity_step();
                proof {
                    lemma_refill_shape(bg2, self.cells(), w as int, h as int);
                    lemma_gcc_gstep(bg2, self.cells(), w as int);
                }
            }
        }
        let d = self.score() - start_score;
        (d, true, next)
    }

    /// The auto-play move evaluator: for every cell and each in-bounds
    /// orthogonal neighbor, speculatively swap, count the matches a full
    /// scan reports, and swap back; keep the swap with the strictly greatest
    /// count (first found wins ties, in column-then-row-then-direction
    /// order). With no candidate producing any match, the zero move
    /// `(0, 0, 0, 0)` is returned and the grid is left exactly unchanged.
    #[verifier::rlimit(100)]
    #[verifier::spinoff_prover]
    pub fn best_move(&mut self) -> (r: (usize, usize, usize, usize))
        requires
            old(self).wf(),
        ensures
            final(self).wf(),
            final(self).cells() == old(self).cells(),
            final(self).width_spec() == old(self).width_spec(),
            final(self).height_spec() == old(self).height_spec(),
            final(self).score_spec() == old(self).score_spec(),
            (forall|rr: int, cc: int, dd: int|
                cand_valid(
                    old(self).height_spec() as int,
                    old(self).width_spec() as int,
                    rr,
                    cc,
                    dd,
                ) ==> #[trigger] cand_count(
                    old(self).cells(),
                    old(self).width_spec() as int,
                    rr,
                    cc,
                    dd,
                ) == 0) ==> r == (0usize, 0usize, 0usize, 0usize),
            (exists|rr: int, cc: int, dd: int|
                cand_valid(
                    old(self).height_spec() as int,
                    old(self).width_spec() as int,
                    rr,
                    cc,
                    dd,
                ) && #[trigger] cand_count(
                    old(self).cells(),
                    old(self).width_spec() as int,
                    rr,
                    cc,
                    dd,
                ) > 0) ==> (exists|rr: int, cc: int, dd: int|
                {
                    &&& cand_valid(
                        old(self).height_spec() as int,
                        old(self).width_spec() as int,
                        rr,
                        cc,
                        dd,
                    )
                    &&& #[trigger] cand_count(
                        old(self).cells(),
                        old(self).width_spec() as int,
                        rr,
                        cc,
                        dd,
                    ) > 0
                    &&& cand_move(rr, cc, dd) == (r.0 as int, r.1 as int, r.2 as int, r.3 as int)
                    &&& forall|r2: int, c2: int, d2: int|
                        cand_valid(
                            old(self).height_spec() as int,
                            old(self).width_spec() as int,
                            r2,
                            c2,
                            d2,
                        ) ==> #[trigger] cand_count(
                            old(self).cells(),
                            old(self).width_spec() as int,
                            r2,
                            c2,
                            d2,
                        ) <= cand_count(old(self).cells(), old(self).width_spec() as int, rr, cc, dd)
                    &&& forall|r2: int, c2: int, d2: int|
                        cand_valid(
                            old(self).height_spec() as int,
                            old(self).width_spec() as int,
                            r2,
                            c2,
                            d2,
                        ) && cand_before(c2, r2, d2, cc, rr, dd) ==> #[trigger] cand_count(
                            old(self).cells(),
                            old(self).width_spec() as int,
                            r2,
                            c2,
                            d2,
                        ) < cand_count(old(self).cells(), old(self).width_spec() as int, rr, cc, dd)
                }),
    {
        let h = self.height();
        let w = self.width();
        let ghost orig = self.cells();
        let mut best_count: usize = 0;
        let mut best: (usize, usize, usize, usize) = (0, 0, 0, 0);
        let ghost mut bw: (int, int, int) = (0int, 0int, 0int);
        let mut c: usize = 0;
        while c < w
            invariant
                self.wf(),
                h == self.height_spec(),
                w == self.width_spec(),
                self.height_spec() == old(self).height_spec(),
                self.width_spec() == old(self).width_spec(),
                self.score_spec() == old(self).score_spec(),
                self.cells() == old(self).cells(),
                orig == old(self).cells(),
                c <= w,
                eval_inv(orig, h as int, w as int, c as int, 0, 0, best_count as int, best, bw),
            decreases w - c,
        {
            let mut rr: usize = 0;
            while rr < h
                invariant
                    self.wf(),
                    h == self.height_spec(),
                    w == self.width_spec(),
                    self.height_spec() == old(self).height_spec(),
                    self.width_spec() == old(self).width_spec(),
                    self.score_spec() == old(self).score_spec(),
                    self.cells() == old(self).cells(),
                    orig == old(self).cells(),
                    c < w,
                    rr <= h,
                    eval_inv(
                        orig,
                        h as int,
                        w as int,
                        c as int,
                        rr as int,
                        0,
                        best_count as int,
                        best,
                        bw,
                    ),
                decreases h - rr,
            {
                let mut d: usize = 0;
                while d < 4
                    invariant
                        self.wf(),
                        h == self.height_spec(),
                        w == self.width_spec(),
                        self.height_spec() == old(self).height_spec(),
                        self.width_spec() == old(self).width_spec(),
                        self.score_spec() == old(self).score_spec(),
                        self.cells() == old(self).cells(),
                        orig == old(self).cells(),
                        c < w,
                        rr < h,
                        d <= 4,
                        eval_inv(
                            orig,
                            h as int,
                            w as int,
                            c as int,
                            rr as int,
                            d as int,
                            best_count as int,
                            best,
                            bw,
                        ),
                    decreases 4 - d,
                {
                    let mut valid = false;
                    let mut r2: usize = 0;
                    let mut c2: usize = 0;
                    if d == 0 {
                        if c + 1 < w {
                            valid = true;
                            r2 = rr;
                            c2 = c + 1;
                        }
                    } else if d == 1 {
                        if c >= 1 {
                            valid = true;
                            r2 = rr;
                            c2 = c - 1;
                        }
                    } else if d == 2 {
                        if rr + 1 < h {
                            valid = true;
                            r2 = rr + 1;
                            c2 = c;
                        }
                    } else {
                        if rr >= 1 {
                            valid = true;
                            r2 = rr - 1;
                            c2 = c;
                        }
                    }
                    proof {
                        assert(valid == cand_valid(
                            h as int,
                            w as int,
                            rr as int,
                            c as int,
                            d as int,
                        ));
                        if valid {
                            assert(cand_move(rr as int, c as int, d as int) == (
                                rr as int,
                                c as int,
                                r2 as int,
                                c2 as int,
                            ));
                        }
                    }
                    if valid {
                        self.swap(rr, c, r2, c2);
                        let cnt = self.count_matches();
                        self.swap(rr, c, r2, c2);
                        proof {
                            crate::laws::lemma_swap_involution(
                                orig,
                                rr as int,
                                c as int,
                                r2 as int,
                                c2 as int,
                            );
                            assert(self.cells() == orig);
                            reveal(cand_count);
                            assert(cnt as int == cand_count(
                                orig,
                                w as int,
                                rr as int,
                                c as int,
                                d as int,
                            ));
                        }
                        if cnt > best_count {
                            best_count = cnt;
                            best = (rr, c, r2, c2);
                            proof {
                                bw = (rr as int, c as int, d as int);
                            }
                        }
                    }
                    proof {
                        assert(eval_inv(
                            orig,
                            h as int,
                            w as int,
                            c as int,
                            rr as int,
                            d as int + 1,
                            best_count as int,
                            best,
                            bw,
                        ));
                    }
                    d = d + 1;
                }
                rr = rr + 1;
            }
            c = c + 1;
        }
        proof {
            if exists|rr: int, cc: int, dd: int|
                cand_valid(h as int, w as int, rr, cc, dd) && #[trigger] cand_count(
                    orig,
                    w as int,
                    rr,
                    cc,
                    dd,
                ) > 0 {
                let (rr, cc, dd) = choose|rr: int, cc: int, dd: int|
                    cand_valid(h as int, w as int, rr, cc, dd) && #[trigger] cand_count(
                        orig,
                        w as int,
                        rr,
                        cc,
                        dd,
                    ) > 0;
                assert(cand_before(cc, rr, dd, w as int, 0, 0));
                assert(best_count > 0);
            }
            if best_count > 0 {
                assert(cand_before(bw.1, bw.0, bw.2, w as int, 0, 0));
                assert forall|r2: int, c2: int, d2: int|
                    cand_valid(h as int, w as int, r2, c2, d2) implies #[trigger] cand_count(
                    orig,
                    w as int,
                    r2,
                    c2,
                    d2,
                ) <= cand_count(orig, w as int, bw.0, bw.1, bw.2) by {
                    assert(cand_before(c2, r2, d2, w as int, 0, 0));
                }
            }
        }
        best
    }

    /// The number of Match records a full scan reports: every column and
    /// every row scanned once, the two sets counted independently.
    pub fn count_matches(&self) -> (n: usize)
        requires
            self.wf(),
        ensures
            n == total_match_count(self.cells(), self.width_spec() as int),
    {
        let h = self.height();
        let w = self.width();
        let ghost hw: int = (self.cells().len() * self.width_spec()) as int;
        proof {
            assert(hw == h * w);
            assert(h * w == w * h) by (nonlinear_arith);
        }
        let mut n: usize = 0;
        let mut c: usize = 0;
        while c < w
            invariant
                self.wf(),
                h == self.height_spec(),
                w == self.width_spec(),
                c <= w,
                n == cols_count_upto(self.cells(), c as int),
                3 * (n as int) <= (c as int) * (h as int),
                (w as int) * (h as int) <= usize::MAX,
            decreases w - c,
        {
            let column = self.col_vec(c);
            let ms = check_line(c, &column);
            proof {
                lemma_cols_bound(self.cells(), c as int + 1, h as int);
                lemma_cols_bound(self.cells(), c as int, h as int);
                lemma_upto_bounds(column@, h as int);
                lemma_mul_step(c as int, h as int);
                lemma_mul_mono(c as int + 1, w as int, h as int);
            }
            n = n + ms.len();
            c = c + 1;
        }
        let mut r: usize = 0;
        let ghost colpart = n as int;
        while r < h
            invariant
                self.wf(),
                h == self.height_spec(),
                w == self.width_spec(),
                r <= h,
                colpart == cols_count_upto(self.cells(), w as int),
                n == colpart + rows_count_upto(self.cells(), r as int),
                3 * (n as int) <= (w as int) * (h as int) + (r as int) * (w as int),
                (w as int) * (h as int) <= usize::MAX,
                3 * colpart <= (w as int) * (h as int),
            decreases h - r,
        {
            let row = self.row_vec(r);
            let ms = check_line(r, &row);
            proof {
                lemma_rows_bound(self.cells(), r as int + 1, w as int);
                lemma_rows_bound(self.cells(), r as int, w as int);
                lemma_upto_bounds(row@, w as int);
                lemma_mul_step(r as int, w as int);
                lemma_mul_mono(r as int + 1, h as int, w as int);
                assert((h as int) * (w as int) == (w as int) * (h as int)) by (nonlinear_arith);
            }
            n = n + ms.len();
            r = r + 1;
        }
        n
    }
}

} // verus!
