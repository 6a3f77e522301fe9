use vstd::prelude::*;
use crate::cell::{Cell, colored};
use crate::grid_ext::{grid_cells, grid_width, arr_from_rows, arr_get, arr_set, arr_num_rows,
    arr_num_cols};
use crate::gravity::{gstep, compact, settled, colored_of, col_measure, gravity_fall_col,
    lemma_gstep_down_facts, lemma_settled_compact, lemma_compact_same, lemma_measure_nonneg};

verus! {

/// The playing field: a fixed-size two-dimensional array of cells, with the
/// running score of the resolution engine. Row 0 is the top (refill edge);
/// row `height - 1` is the bottom (gravity sink).
pub struct CellGrid {
    pub(crate) grid: array2d::Array2D<Cell>,
    pub(crate) score: usize,
}

/// Column `c` of a grid, read top to bottom.
pub open spec fn col_seq(cells: Seq<Seq<Cell>>, c: int) -> Seq<Cell> {
    Seq::new(cells.len(), |r: int| cells[r][c])
}

/// The grid with exactly the addressed cell overwritten.
pub open spec fn grid_set_spec(cells: Seq<Seq<Cell>>, r: int, c: int, v: Cell) -> Seq<Seq<Cell>> {
    cells.update(r, cells[r].update(c, v))
}

/// The grid after exchanging two addressed cells; with any address out of
/// bounds, the grid unchanged.
pub open spec fn swap_spec(cells: Seq<Seq<Cell>>, r1: int, c1: int, r2: int, c2: int) -> Seq<
    Seq<Cell>,
> {
    if 0 <= r1 < cells.len() && 0 <= c1 < cells[r1].len() && 0 <= r2 < cells.len() && 0 <= c2
        < cells[r2].len() {
        grid_set_spec(grid_set_spec(cells, r1, c1, cells[r2][c2]), r2, c2, cells[r1][c1])
    } else {
        cells
    }
}

/// Every column of the grid is settled: no colored token hangs above a
/// vacancy.
pub open spec fn grid_settled(cells: Seq<Seq<Cell>>, w: int) -> bool {
    forall|c: int| 0 <= c < w ==> settled(#[trigger] col_seq(cells, c))
}

/// Sum of the column measures of the first `c` columns.
pub open spec fn grid_measure_upto(cells: Seq<Seq<Cell>>, c: int) -> int
    decreases c,
{
    if c <= 0 {
        0
    } else {
        grid_measure_upto(cells, c - 1) + col_measure(col_seq(cells, c - 1))
    }
}

pub proof fn lemma_grid_measure_nonneg(cells: Seq<Seq<Cell>>, c: int)
    ensures
        grid_measure_upto(cells, c) >= 0,
    decreases c,
{
    if c > 0 {
        lemma_grid_measure_nonneg(cells, c - 1);
        lemma_measure_nonneg(col_seq(cells, c - 1), 0);
    }
}

/// The measure of the first `c` columns looks only at those columns.
pub proof fn lemma_grid_measure_agree(a: Seq<Seq<Cell>>, b: Seq<Seq<Cell>>, c: int)
    requires
        forall|c2: int| 0 <= c2 < c ==> col_seq(a, c2) == col_seq(b, c2),
    ensures
        grid_measure_upto(a, c) == grid_measure_upto(b, c),
    decreases c,
{
    if c > 0 {
        lemma_grid_measure_agree(a, b, c - 1);
    }
}

/// Rectangular grids with equal columns are equal.
pub proof fn lemma_cols_eq_cells_eq(a: Seq<Seq<Cell>>, b: Seq<Seq<Cell>>, w: int)
    requires
        a.len() == b.len(),
        forall|r: int| 0 <= r < a.len() ==> (#[trigger] a[r]).len() == w,
        forall|r: int| 0 <= r < b.len() ==> (#[trigger] b[r]).len() == w,
        forall|c: int| 0 <= c < w ==> col_seq(a, c) == col_seq(b, c),
    ensures
        a == b,
{
    assert forall|r: int| 0 <= r < a.len() implies a[r] == b[r] by {
        assert forall|c: int| 0 <= c < w implies a[r][c] == b[r][c] by {
            assert(col_seq(a, c)[r] == a[r][c]);
            assert(col_seq(b, c)[r] == b[r][c]);
        }
        assert(a[r] =~= b[r]);
    }
    assert(a =~= b);
}

/// Every cell is an active (`Normal`) tile.
pub open spec fn all_normal(cells: Seq<Seq<Cell>>) -> bool {
    forall|r: int, c: int|
        0 <= r < cells.len() && 0 <= c < cells[r].len() ==> (#[trigger] cells[r][c]) is Normal
}

/// No cell is marked for removal.
pub open spec fn no_deleting(cells: Seq<Seq<Cell>>) -> bool {
    forall|r: int, c: int|
        0 <= r < cells.len() && 0 <= c < cells[r].len() ==> !((#[trigger] cells[r][c]) is Deleting)
}

impl CellGrid {
    /// The cells, as the sequence of rows.
    pub closed spec fn cells(&self) -> Seq<Seq<Cell>> {
        grid_cells(self.grid)
    }

    /// The number of columns.
    pub closed spec fn width_spec(&self) -> nat {
        grid_width(self.grid)
    }

    /// The number of rows.
    pub open spec fn height_spec(&self) -> nat {
        self.cells().len()
    }

    /// The running score.
    pub closed spec fn score_spec(&self) -> usize {
        self.score
    }

    /// Well-formed: rectangular, and small enough that the cell count fits
    /// the machine.
    pub open spec fn wf(&self) -> bool {
        &&& forall|r: int|
            0 <= r < self.cells().len() ==> (#[trigger] self.cells()[r]).len()
                == self.width_spec()
        &&& self.cells().len() * self.width_spec() <= usize::MAX
    }

    /// Construct a grid of the given dimensions, filled with random active
    /// tiles, with score zero.
    pub fn new(height: usize, width: usize) -> (g: Self)
        requires
            height * width <= usize::MAX,
        ensures
            g.wf(),
            g.height_spec() == height,
            g.width_spec() == if height == 0 { 0int } else { width as int },
            g.score_spec() == 0,
            all_normal(g.cells()),
    {
        let mut rows: Vec<Vec<Cell>> = Vec::new();
        let mut r: usize = 0;
        while r < height
            invariant
                r <= height,
                rows@.len() == r,
                forall|i: int| 0 <= i < r ==> (#[trigger] rows@[i]@).len() == width,
                forall|i: int, j: int|
                    0 <= i < r && 0 <= j < width ==> (#[trigger] rows@[i]@[j]) is Normal,
            decreases height - r,
        {
            let mut row: Vec<Cell> = Vec::new();
            let mut c: usize = 0;
            while c < width
                invariant
                    c <= width,
                    row@.len() == c,
                    forall|j: int| 0 <= j < c ==> (#[trigger] row@[j]) is Normal,
                decreases width - c,
            {
                row.push(Cell::new_random());
                c = c + 1;
            }
            rows.push(row);
            r = r + 1;
        }
        let arr = arr_from_rows(&rows);
        let g = CellGrid { grid: arr, score: 0 };
        proof {
            assert forall|i: int| 0 <= i < g.cells().len() implies (#[trigger] g.cells()[i]).len()
                == g.width_spec() by {
                assert(g.cells()[i] == rows@[i]@);
            }
            if height == 0 {
                assert(g.cells().len() * g.width_spec() == 0) by (nonlinear_arith)
                    requires
                        g.cells().len() == 0,
                ;
            } else {
                assert(g.cells().len() * g.width_spec() == height * width);
            }
            assert forall|i: int, c: int|
                0 <= i < g.cells().len() && 0 <= c < g.cells()[i].len() implies (#[trigger] g.cells()[i][c]) is Normal by {
                assert(g.cells()[i] == rows@[i]@);
                assert(rows@[i]@[c] is Normal);
            }
        }
        g
    }

    /// Construct a grid from explicit rows (all of one length), score zero.
    /// This is the deterministic entry point: callers and tests use it to
    /// lay out exact positions. Ragged rows are rejected.
    pub fn from_rows(rows: Vec<Vec<Cell>>) -> (g: Option<Self>)
        ensures
            (g is Some) <==> ((forall|i: int|
                0 <= i < rows@.len() ==> (#[trigger] rows@[i]@).len() == rows@[0]@.len())
                && rows@.len() * rows@[0]@.len() <= usize::MAX),
            g is Some ==> {
                let gr = g.unwrap();
                &&& gr.wf()
                &&& gr.height_spec() == rows@.len()
                &&& gr.width_spec() == if rows@.len() == 0 { 0int } else { rows@[0]@.len() as int }
                &&& gr.score_spec() == 0
                &&& forall|i: int| 0 <= i < rows@.len() ==> gr.cells()[i] == #[trigger] rows@[i]@
            },
    {
        let n = rows.len();
        if n == 0 {
            let arr = arr_from_rows(&rows);
            let gr = CellGrid { grid: arr, score: 0 };
            proof {
                assert(gr.cells().len() == 0);
                assert(gr.wf());
                assert(rows@.len() * rows@[0]@.len() == 0) by (nonlinear_arith)
                    requires
                        rows@.len() == 0,
                ;
            }
            return Some(gr);
        }
        let w = rows[0].len();
        let fits = w == 0 || n <= usize::MAX / w;
        proof {
            if w != 0 {
                vstd::arithmetic::div_mod::lemma_fundamental_div_mod(usize::MAX as int, w as int);
                vstd::arithmetic::div_mod::lemma_mod_division_less_than_divisor(
                    usize::MAX as int,
                    w as int,
                );
            }
            assert(fits == (n * w <= usize::MAX)) by (nonlinear_arith)
                requires
                    n >= 1,
                    fits == (w == 0 || n <= usize::MAX / w),
                    w != 0 ==> usize::MAX as int == (w as int) * ((usize::MAX as int) / (w as int))
                        + (usize::MAX as int) % (w as int),
                    w != 0 ==> (usize::MAX as int) % (w as int) < w as int,
            ;
        }
        let mut i: usize = 0;
        let mut ok = true;
        while i < n
            invariant
                n == rows@.len(),
                0 < n,
                w == rows@[0]@.len(),
                i <= n,
                ok == (forall|k: int| 0 <= k < i ==> (#[trigger] rows@[k]@).len() == w),
            decreases n - i,
        {
            if rows[i].len() != w {
                ok = false;
            }
            i = i + 1;
        }
        if ok && fits {
            let arr = arr_from_rows(&rows);
            let gr = CellGrid { grid: arr, score: 0 };
            proof {
                assert forall|r: int| 0 <= r < gr.cells().len() implies (#[trigger] gr.cells()[r]).len()
                    == gr.width_spec() by {
                    assert(gr.cells()[r] == rows@[r]@);
                }
                assert(gr.cells().len() * gr.width_spec() == n * w);
            }
            Some(gr)
        } else {
            None
        }
    }

    /// The number of rows.
    pub fn height(&self) -> (r: usize)
        ensures
            r == self.height_spec(),
    {
        arr_num_rows(&self.grid)
    }

    /// The number of columns.
    pub fn width(&self) -> (r: usize)
        ensures
            r == self.width_spec(),
    {
        arr_num_cols(&self.grid)
    }

    /// The running score.
    pub fn score(&self) -> (r: usize)
        ensures
            r == self.score_spec(),
    {
        self.score
    }

    /// The cell at an in-bounds address.
    pub fn cell_at(&self, r: usize, c: usize) -> (res: Cell)
        requires
            self.wf(),
            r < self.height_spec(),
            c < self.width_spec(),
        ensures
            res == self.cells()[r as int][c as int],
    {
        match arr_get(&self.grid, r, c) {
            Some(cell) => *cell,
            None => {
                proof {
                    assert(false);
                }
                Cell::Empty
            },
        }
    }

    /// Overwrite one in-bounds cell. Internal: the engine's own steps use it.
    pub(crate) fn set_cell(&mut self, r: usize, c: usize, v: Cell)
        requires
            old(self).wf(),
            r < old(self).height_spec(),
            c < old(self).width_spec(),
        ensures
            final(self).wf(),
            final(self).cells() == grid_set_spec(old(self).cells(), r as int, c as int, v),
            final(self).width_spec() == old(self).width_spec(),
            final(self).height_spec() == old(self).height_spec(),
            final(self).score_spec() == old(self).score_spec(),
    {
        let _ = arr_set(&mut self.grid, r, c, v);
    }

    /// Exchange the contents of two addressed cells: a true swap. If either
    /// address is out of bounds the grid is left entirely unchanged; swapping
    /// a cell with itself is a no-op.
    pub fn swap(&mut self, row1: usize, col1: usize, row2: usize, col2: usize)
        requires
            old(self).wf(),
        ensures
            final(self).wf(),
            final(self).cells() == swap_spec(
                old(self).cells(),
                row1 as int,
                col1 as int,
                row2 as int,
                col2 as int,
            ),
            final(self).width_spec() == old(self).width_spec(),
            final(self).height_spec() == old(self).height_spec(),
            final(self).score_spec() == old(self).score_spec(),
    {
        let h = self.height();
        let w = self.width();
        if row1 < h && col1 < w && row2 < h && col2 < w {
            let a = self.cell_at(row1, col1);
            let b = self.cell_at(row2, col2);
            self.set_cell(row1, col1, b);
            self.set_cell(row2, col2, a);
        }
    }

    /// Add points to the score, saturating at the machine limit.
    pub(crate) fn add_score(&mut self, delta: usize)
        ensures
            final(self).cells() == old(self).cells(),
            final(self).width_spec() == old(self).width_spec(),
            final(self).height_spec() == old(self).height_spec(),
            final(self).score_spec() as int == if old(self).score_spec() + delta <= usize::MAX {
                old(self).score_spec() + delta
            } else {
                usize::MAX as int
            },
    {
        if self.score <= usize::MAX - delta {
            self.score = self.score + delta;
        } else {
            self.score = usize::MAX;
        }
    }

    /// Row `r` of the grid, as a vector, left to right.
    pub fn row_vec(&self, r: usize) -> (v: Vec<Cell>)
        requires
            self.wf(),
            r < self.height_spec(),
        ensures
            v@ == self.cells()[r as int],
    {
        let w = self.width();
        let mut v: Vec<Cell> = Vec::new();
        let mut c: usize = 0;
        while c < w
            invariant
                self.wf(),
                r < self.height_spec(),
                w == self.width_spec(),
                c <= w,
                v@.len() == c,
                forall|i: int| 0 <= i < c ==> v@[i] == self.cells()[r as int][i],
            decreases w - c,
        {
            v.push(self.cell_at(r, c));
            c = c + 1;
        }
        proof {
            assert(v@ =~= self.cells()[r as int]);
        }
        v
    }

    /// Column `c` of the grid, as a vector, top to bottom.
    pub fn col_vec(&self, c: usize) -> (v: Vec<Cell>)
        requires
            self.wf(),
            c < self.width_spec(),
        ensures
            v@ == col_seq(self.cells(), c as int),
    {
        let h = self.height();
        let mut v: Vec<Cell> = Vec::new();
        let mut r: usize = 0;
        while r < h
            invariant
                self.wf(),
                c < self.width_spec(),
                h == self.height_spec(),
                r <= h,
                v@.len() == r,
                forall|i: int| 0 <= i < r ==> v@[i] == self.cells()[i][c as int],
            decreases h - r,
        {
            v.push(self.cell_at(r, c));
            r = r + 1;
        }
        proof {
            assert(v@ =~= col_seq(self.cells(), c as int));
        }
        v
    }

    /// Overwrite column `c` with the given cells.
    pub(crate) fn write_col(&mut self, c: usize, v: &Vec<Cell>)
        requires
            old(self).wf(),
            c < old(self).width_spec(),
            v@.len() == old(self).height_spec(),
        ensures
            final(self).wf(),
            final(self).width_spec() == old(self).width_spec(),
            final(self).height_spec() == old(self).height_spec(),
            final(self).score_spec() == old(self).score_spec(),
            forall|r: int, c2: int|
                0 <= r < old(self).height_spec() && 0 <= c2 < old(self).width_spec()
                    ==> final(self).cells()[r][c2] == (if c2 == c {
                    v@[r]
                } else {
                    old(self).cells()[r][c2]
                }),
            col_seq(final(self).cells(), c as int) == v@,
            forall|c2: int|
                0 <= c2 < old(self).width_spec() && c2 != c ==> col_seq(
                    final(self).cells(),
                    c2,
                ) == col_seq(old(self).cells(), c2),
    {
        let h = self.height();
        let mut r: usize = 0;
        while r < h
            invariant
                self.wf(),
                c < self.width_spec(),
                h == self.height_spec(),
                self.height_spec() == old(self).height_spec(),
                self.width_spec() == old(self).width_spec(),
                self.score_spec() == old(self).score_spec(),
                v@.len() == h,
                r <= h,
                forall|r2: int, c2: int|
                    0 <= r2 < h && 0 <= c2 < self.width_spec() ==> self.cells()[r2][c2] == (if c2
                        == c && r2 < r {
                        v@[r2]
                    } else {
                        old(self).cells()[r2][c2]
                    }),
            decreases h - r,
        {
            self.set_cell(r, c, v[r]);
            r = r + 1;
        }
        proof {
            assert(col_seq(self.cells(), c as int) =~= v@);
            assert forall|c2: int|
                0 <= c2 < old(self).width_spec() && c2 != c implies col_seq(self.cells(), c2)
                == col_seq(old(self).cells(), c2) by {
                assert(col_seq(self.cells(), c2) =~= col_seq(old(self).cells(), c2));
            }
        }
    }

    /// One gravity step over the whole grid: in every column, each token
    /// with a vacancy directly below falls one row (bottom-to-top pass, so a
    /// token moves at most one row per step). Reports whether anything fell,
    /// which happens exactly when some column is not settled.
    pub fn do_gravity_step(&mut self) -> (moved: bool)
        requires
            old(self).wf(),
        ensures
            final(self).wf(),
            final(self).width_spec() == old(self).width_spec(),
            final(self).height_spec() == old(self).height_spec(),
            final(self).score_spec() == old(self).score_spec(),
            forall|c: int|
                0 <= c < old(self).width_spec() ==> col_seq(final(self).cells(), c) == gstep(
                    #[trigger] col_seq(old(self).cells(), c),
                ),
            moved == !grid_settled(old(self).cells(), old(self).width_spec() as int),
            moved ==> grid_measure_upto(final(self).cells(), old(self).width_spec() as int)
                < grid_measure_upto(old(self).cells(), old(self).width_spec() as int),
            !moved ==> final(self).cells() == old(self).cells(),
    {
        let w = self.width();
        let mut moved = false;
        let mut c: usize = 0;
        while c < w
            invariant
                self.wf(),
                w == self.width_spec(),
                self.height_spec() == old(self).height_spec(),
                self.width_spec() == old(self).width_spec(),
                self.score_spec() == old(self).score_spec(),
                old(self).wf(),
                c <= w,
                forall|c2: int|
                    c <= c2 < w ==> col_seq(self.cells(), c2) == col_seq(old(self).cells(), c2),
                forall|c2: int|
                    0 <= c2 < c ==> col_seq(self.cells(), c2) == gstep(
                        #[trigger] col_seq(old(self).cells(), c2),
                    ),
                moved == exists|c2: int|
                    0 <= c2 < c && !settled(#[trigger] col_seq(old(self).cells(), c2)),
                grid_measure_upto(self.cells(), c as int) <= grid_measure_upto(
                    old(self).cells(),
                    c as int,
                ),
                moved ==> grid_measure_upto(self.cells(), c as int) < grid_measure_upto(
                    old(self).cells(),
                    c as int,
                ),
            decreases w - c,
        {
            let ghost pre = self.cells();
            let mut column = self.col_vec(c);
            let m = gravity_fall_col(&mut column);
            proof {
                lemma_gstep_down_facts(col_seq(old(self).cells(), c as int), pre.len() - 1, 1);
            }
            self.write_col(c, &column);
            if m {
                moved = true;
            }
            proof {
                lemma_grid_measure_agree(self.cells(), pre, c as int);
                lemma_gstep_down_facts(col_seq(old(self).cells(), c as int), pre.len() - 1, 1);
                if m {
                    crate::gravity::lemma_unsettled_measure_entry(
                        col_seq(old(self).cells(), c as int),
                    );
                }
            }
            c = c + 1;
        }
        proof {
            if !moved {
                assert forall|c2: int| 0 <= c2 < w implies col_seq(self.cells(), c2) == col_seq(
                    old(self).cells(),
                    c2,
                ) by {
                    lemma_gstep_down_facts(col_seq(old(self).cells(), c2), col_seq(
                        old(self).cells(),
                        c2,
                    ).len() - 1, 1);
                }
                lemma_cols_eq_cells_eq(
                    self.cells(),
                    old(self).cells(),
                    self.width_spec() as int,
                );
            }
        }
        moved
    }

    /// Run gravity to completion: repeat single steps until a full pass
    /// makes no move. Afterwards every column is fully fallen (vacancies on
    /// top, tokens below, order kept). Reports whether any step moved
    /// anything, which happens exactly when the grid was not settled.
    pub fn do_gravity(&mut self) -> (moved: bool)
        requires
            old(self).wf(),
        ensures
            final(self).wf(),
            final(self).width_spec() == old(self).width_spec(),
            final(self).height_spec() == old(self).height_spec(),
            final(self).score_spec() == old(self).score_spec(),
            forall|c: int|
                0 <= c < old(self).width_spec() ==> col_seq(final(self).cells(), c) == compact(
                    #[trigger] col_seq(old(self).cells(), c),
                ),
            grid_settled(final(self).cells(), old(self).width_spec() as int),
            moved == !grid_settled(old(self).cells(), old(self).width_spec() as int),
            !moved ==> final(self).cells() == old(self).cells(),
            forall|c: int|
                0 <= c < old(self).width_spec() ==> colored_of(
                    col_seq(final(self).cells(), c),
                ) == colored_of(#[trigger] col_seq(old(self).cells(), c)),
    {
        let w = self.width();
        let mut moved = false;
        loop
            invariant
                self.wf(),
                w == self.width_spec(),
                self.height_spec() == old(self).height_spec(),
                self.width_spec() == old(self).width_spec(),
                self.score_spec() == old(self).score_spec(),
                old(self).wf(),
                forall|c: int|
                    0 <= c < w ==> colored_of(#[trigger] col_seq(self.cells(), c)) == colored_of(
                        col_seq(old(self).cells(), c),
                    ) && col_seq(self.cells(), c).len() == col_seq(old(self).cells(), c).len(),
                moved ==> !grid_settled(old(self).cells(), w as int),
                !moved ==> self.cells() == old(self).cells(),
            ensures
                self.wf(),
                w == self.width_spec(),
                self.height_spec() == old(self).height_spec(),
                self.width_spec() == old(self).width_spec(),
                self.score_spec() == old(self).score_spec(),
                grid_settled(self.cells(), w as int),
                forall|c: int|
                    0 <= c < w ==> colored_of(#[trigger] col_seq(self.cells(), c)) == colored_of(
                        col_seq(old(self).cells(), c),
                    ) && col_seq(self.cells(), c).len() == col_seq(old(self).cells(), c).len(),
                moved ==> !grid_settled(old(self).cells(), w as int),
                !moved ==> self.cells() == old(self).cells(),
            decreases grid_measure_upto(self.cells(), w as int),
        {
            proof {
                lemma_grid_measure_nonneg(self.cells(), w as int);
            }
            let ghost pre = self.cells();
            let m = self.do_gravity_step();
            proof {
                assert forall|c: int| 0 <= c < w implies colored_of(
                    #[trigger] col_seq(self.cells(), c),
                ) == colored_of(col_seq(old(self).cells(), c)) && col_seq(
                    self.cells(),
                    c,
                ).len() == col_seq(old(self).cells(), c).len() by {
                    lemma_gstep_down_facts(col_seq(pre, c), col_seq(pre, c).len() - 1, 1);
                }
            }
            if !m {
                break;
            }
            moved = true;
            proof {
                lemma_grid_measure_nonneg(self.cells(), w as int);
            }
        }
        proof {
            assert forall|c: int| 0 <= c < w implies col_seq(self.cells(), c) == compact(
                #[trigger] col_seq(old(self).cells(), c),
            ) by {
                lemma_settled_compact(col_seq(self.cells(), c));
                lemma_compact_same(col_seq(self.cells(), c), col_seq(old(self).cells(), c));
            }
        }
        moved
    }
}

} // verus!
