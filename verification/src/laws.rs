use vstd::prelude::*;
use crate::cell::Cell;
use crate::grid::{col_seq, swap_spec, grid_settled};
use crate::gravity::{compact, settled, lemma_settled_compact, lemma_colored_of_len};

verus! {

/// Swapping the same two addresses twice restores the grid exactly, for any
/// two addresses, valid or not, equal or not.
pub proof fn lemma_swap_involution(cells: Seq<Seq<Cell>>, r1: int, c1: int, r2: int, c2: int)
    ensures
        swap_spec(swap_spec(cells, r1, c1, r2, c2), r1, c1, r2, c2) == cells,
{
    let mid = swap_spec(cells, r1, c1, r2, c2);
    if 0 <= r1 < cells.len() && 0 <= c1 < cells[r1].len() && 0 <= r2 < cells.len() && 0 <= c2
        < cells[r2].len() {
        assert(mid.len() == cells.len());
        assert forall|r: int| 0 <= r < cells.len() implies (#[trigger] mid[r]).len()
            == cells[r].len() by {}
        assert forall|r: int| 0 <= r < cells.len() implies #[trigger] swap_spec(
            mid,
            r1,
            c1,
            r2,
            c2,
        )[r] == cells[r] by {
            assert(swap_spec(mid, r1, c1, r2, c2)[r] =~= cells[r]);
        }
        assert(swap_spec(mid, r1, c1, r2, c2) =~= cells);
    }
}

/// A swap with any address out of bounds leaves the grid exactly unchanged.
pub proof fn lemma_swap_out_of_bounds(cells: Seq<Seq<Cell>>, r1: int, c1: int, r2: int, c2: int)
    requires
        !(0 <= r1 < cells.len() && 0 <= c1 < cells[r1].len() && 0 <= r2 < cells.len() && 0 <= c2
            < cells[r2].len()),
    ensures
        swap_spec(cells, r1, c1, r2, c2) == cells,
{
}

/// A compacted column is settled, so compaction is idempotent: running the
/// gravity simulator twice in a row moves nothing on the second run.
pub proof fn lemma_compact_idempotent(col: Seq<Cell>)
    ensures
        settled(compact(col)),
        compact(compact(col)) == compact(col),
{
    lemma_colored_of_len(col);
    crate::gravity::lemma_colored_of_colored(col);
    let e = col.len() - crate::gravity::colored_of(col).len();
    assert forall|i: int|
        1 <= i < compact(col).len() && (#[trigger] compact(col)[i]) is Empty implies !crate::cell::colored(
        compact(col)[i - 1],
    ) by {
        assert(i < e);
    }
    lemma_settled_compact(compact(col));
}

/// A settled grid is a fixed point of gravity: every column already equals
/// its own compaction, so a second full gravity run reports no move.
pub proof fn lemma_gravity_idempotent(cells: Seq<Seq<Cell>>, w: int)
    requires
        grid_settled(cells, w),
    ensures
        forall|c: int| 0 <= c < w ==> compact(#[trigger] col_seq(cells, c)) == col_seq(cells, c),
{
    assert forall|c: int| 0 <= c < w implies compact(#[trigger] col_seq(cells, c)) == col_seq(
        cells,
        c,
    ) by {
        lemma_settled_compact(col_seq(cells, c));
    }
}

} // verus!
