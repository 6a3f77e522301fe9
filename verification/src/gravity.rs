use vstd::prelude::*;
use crate::cell::{Cell, colored};

verus! {

/// One gravity action at position `i` of a column (read top to bottom): if
/// the cell is empty and the cell above holds a colored token, the token
/// falls one row.
pub open spec fn gstep_at(col: Seq<Cell>, i: int) -> Seq<Cell> {
    if col[i] is Empty && colored(col[i - 1]) {
        col.update(i, col[i - 1]).update(i - 1, Cell::Empty)
    } else {
        col
    }
}

/// The bottom-to-top pass applied at positions `hi` down to `lo`.
pub open spec fn gstep_down(col: Seq<Cell>, hi: int, lo: int) -> Seq<Cell>
    decreases hi - lo + 1,
{
    if hi < lo || lo < 1 {
        col
    } else {
        gstep_down(gstep_at(col, hi), hi - 1, lo)
    }
}

/// One full gravity pass over a column: each token falls by at most one row.
pub open spec fn gstep(col: Seq<Cell>) -> Seq<Cell> {
    gstep_down(col, col.len() - 1, 1)
}

/// No empty cell has a colored token directly above it.
pub open spec fn settled(col: Seq<Cell>) -> bool {
    forall|i: int| 1 <= i < col.len() && (#[trigger] col[i]) is Empty ==> !colored(col[i - 1])
}

/// The colored cells of a column, in order, top to bottom.
pub open spec fn colored_of(col: Seq<Cell>) -> Seq<Cell>
    decreases col.len(),
{
    if col.len() == 0 {
        Seq::empty()
    } else {
        colored_of(col.drop_last()) + if colored(col.last()) {
            seq![col.last()]
        } else {
            Seq::empty()
        }
    }
}

/// A fully fallen column: vacancies on top, then the colored cells in their
/// original order.
pub open spec fn compact(col: Seq<Cell>) -> Seq<Cell> {
    Seq::new(
        col.len(),
        |i: int|
            if i < col.len() - colored_of(col).len() {
                Cell::Empty
            } else {
                colored_of(col)[i - (col.len() - colored_of(col).len())]
            },
    )
}

/// Sum, over the empty cells of the column, of their row index: the measure
/// that each gravity action strictly shrinks.
pub open spec fn col_measure_from(col: Seq<Cell>, i: int) -> int
    decreases col.len() - i,
{
    if i < 0 || i >= col.len() {
        0
    } else {
        (if col[i] is Empty {
            i
        } else {
            0int
        }) + col_measure_from(col, i + 1)
    }
}

pub open spec fn col_measure(col: Seq<Cell>) -> int {
    col_measure_from(col, 0)
}

pub proof fn lemma_measure_nonneg(col: Seq<Cell>, i: int)
    requires
        i >= 0,
    ensures
        col_measure_from(col, i) >= 0,
    decreases col.len() - i,
{
    if i < col.len() {
        lemma_measure_nonneg(col, i + 1);
    }
}

/// How one overwrite shifts the measure.
pub proof fn lemma_measure_update(col: Seq<Cell>, j: int, v: Cell, i: int)
    requires
        0 <= j < col.len(),
        0 <= i <= col.len(),
    ensures
        col_measure_from(col.update(j, v), i) == col_measure_from(col, i) + if i <= j {
            (if v is Empty {
                j
            } else {
                0int
            }) - (if col[j] is Empty {
                j
            } else {
                0int
            })
        } else {
            0int
        },
    decreases col.len() - i,
{
    if i < col.len() {
        lemma_measure_update(col, j, v, i + 1);
    }
}

pub proof fn lemma_colored_of_app(a: Seq<Cell>, b: Seq<Cell>)
    ensures
        colored_of(a + b) == colored_of(a) + colored_of(b),
    decreases b.len(),
{
    if b.len() == 0 {
        assert(a + b =~= a);
        assert(colored_of(a) + colored_of(b) =~= colored_of(a));
    } else {
        lemma_colored_of_app(a, b.drop_last());
        assert((a + b).drop_last() =~= a + b.drop_last());
        assert((a + b).last() == b.last());
        if colored(b.last()) {
            assert(colored_of(a) + colored_of(b.drop_last()) + seq![b.last()] =~= colored_of(a)
                + (colored_of(b.drop_last()) + seq![b.last()]));
        } else {
            assert(colored_of(a) + colored_of(b.drop_last()) + Seq::<Cell>::empty()
                =~= colored_of(a) + (colored_of(b.drop_last()) + Seq::<Cell>::empty()));
        }
    }
}

pub proof fn lemma_colored_of_one(x: Cell)
    ensures
        colored_of(seq![x]) == if colored(x) {
            seq![x]
        } else {
            Seq::<Cell>::empty()
        },
{
    assert(seq![x].drop_last() =~= Seq::<Cell>::empty());
    assert(colored_of(Seq::<Cell>::empty()) == Seq::<Cell>::empty());
    if colored(x) {
        assert(colored_of(seq![x]) =~= seq![x]);
    } else {
        assert(colored_of(seq![x]) =~= Seq::<Cell>::empty());
    }
}

pub proof fn lemma_colored_of_two(x: Cell, y: Cell)
    ensures
        colored_of(seq![x, y]) == colored_of(seq![x]) + colored_of(seq![y]),
{
    lemma_colored_of_one(x);
    lemma_colored_of_one(y);
    assert(seq![x, y].drop_last() =~= seq![x]);
    assert(seq![x, y].last() == y);
    if colored(y) {
        assert(colored_of(seq![x, y]) =~= colored_of(seq![x]) + colored_of(seq![y]));
    } else {
        assert(colored_of(seq![x, y]) =~= colored_of(seq![x]) + colored_of(seq![y]));
    }
}

pub proof fn lemma_colored_of_len(col: Seq<Cell>)
    ensures
        0 <= colored_of(col).len() <= col.len(),
    decreases col.len(),
{
    if col.len() > 0 {
        lemma_colored_of_len(col.drop_last());
    }
}

/// A gravity action keeps the column's colored cells and their order.
pub proof fn lemma_gstep_at_colored(col: Seq<Cell>, i: int)
    requires
        1 <= i < col.len(),
    ensures
        colored_of(gstep_at(col, i)) == colored_of(col),
        gstep_at(col, i).len() == col.len(),
        col_measure(gstep_at(col, i)) <= col_measure(col),
        gstep_at(col, i) != col ==> col_measure(gstep_at(col, i)) < col_measure(col),
{
    let n = col.len() as int;
    if col[i] is Empty && colored(col[i - 1]) {
        let col2 = col.update(i, col[i - 1]).update(i - 1, Cell::Empty);
        // the colored cells are unchanged: decompose both columns around i-1, i
        let pre = col.subrange(0, i - 1);
        let post = col.subrange(i + 1, n);
        assert(col =~= pre + seq![col[i - 1], col[i]] + post);
        assert(col2 =~= pre + seq![Cell::Empty, col[i - 1]] + post);
        lemma_colored_of_app(pre + seq![col[i - 1], col[i]], post);
        lemma_colored_of_app(pre, seq![col[i - 1], col[i]]);
        lemma_colored_of_app(pre + seq![Cell::Empty, col[i - 1]], post);
        lemma_colored_of_app(pre, seq![Cell::Empty, col[i - 1]]);
        assert(colored_of(seq![col[i - 1], col[i]]) =~= seq![col[i - 1]]) by {
            lemma_colored_of_two(col[i - 1], col[i]);
            lemma_colored_of_one(col[i - 1]);
            lemma_colored_of_one(col[i]);
        }
        assert(colored_of(seq![Cell::Empty, col[i - 1]]) =~= seq![col[i - 1]]) by {
            lemma_colored_of_two(Cell::Empty, col[i - 1]);
            lemma_colored_of_one(Cell::Empty);
            lemma_colored_of_one(col[i - 1]);
        }
        assert(colored_of(col2) == colored_of(col));
        // the measure drops by one
        lemma_measure_update(col, i, col[i - 1], 0);
        lemma_measure_update(col.update(i, col[i - 1]), i - 1, Cell::Empty, 0);
        assert(col_measure(col2) == col_measure(col) - 1);
    }
}

/// Facts carried through the bottom-to-top pass.
pub proof fn lemma_gstep_down_facts(col: Seq<Cell>, hi: int, lo: int)
    requires
        hi < col.len(),
    ensures
        gstep_down(col, hi, lo).len() == col.len(),
        colored_of(gstep_down(col, hi, lo)) == colored_of(col),
        col_measure(gstep_down(col, hi, lo)) <= col_measure(col),
        forall|j: int| 0 <= j < lo - 1 ==> gstep_down(col, hi, lo)[j] == col[j],
        settled(col) ==> gstep_down(col, hi, lo) == col,
    decreases hi - lo + 1,
{
    if hi < lo || lo < 1 {
    } else {
        lemma_gstep_at_colored(col, hi);
        lemma_gstep_down_facts(gstep_at(col, hi), hi - 1, lo);
        assert forall|j: int| 0 <= j < lo - 1 implies gstep_down(col, hi, lo)[j] == col[j] by {
            assert(gstep_down(col, hi, lo) == gstep_down(gstep_at(col, hi), hi - 1, lo));
            assert(gstep_down(gstep_at(col, hi), hi - 1, lo)[j] == gstep_at(col, hi)[j]);
            assert(gstep_at(col, hi)[j] == col[j]);
        }
        if settled(col) {
            assert(gstep_at(col, hi) == col);
        }
    }
}

/// A pass over an unsettled column strictly shrinks the measure.
pub proof fn lemma_unsettled_measure(col: Seq<Cell>, hi: int)
    requires
        hi < col.len(),
        exists|i: int| 1 <= i <= hi && (#[trigger] col[i]) is Empty && colored(col[i - 1]),
    ensures
        col_measure(gstep_down(col, hi, 1)) < col_measure(col),
    decreases hi,
{
    let w = choose|i: int| 1 <= i <= hi && (#[trigger] col[i]) is Empty && colored(col[i - 1]);
    if col[hi] is Empty && colored(col[hi - 1]) {
        let col2 = gstep_at(col, hi);
        lemma_gstep_at_colored(col, hi);
        assert(col2[hi] == col[hi - 1]);
        assert(col2 != col);
        lemma_gstep_down_facts(col2, hi - 1, 1);
    } else {
        assert(gstep_at(col, hi) == col);
        assert(1 <= w <= hi - 1);
        lemma_unsettled_measure(col, hi - 1);
    }
}

/// A full pass over an unsettled column strictly shrinks the measure.
pub proof fn lemma_unsettled_measure_entry(col: Seq<Cell>)
    requires
        !settled(col),
    ensures
        col_measure(gstep(col)) < col_measure(col),
{
    assert(exists|i: int|
        1 <= i <= col.len() - 1 && (#[trigger] col[i]) is Empty && colored(col[i - 1]));
    lemma_unsettled_measure(col, col.len() - 1);
}

/// A settled column is its own compaction.
pub proof fn lemma_settled_compact(col: Seq<Cell>)
    requires
        settled(col),
    ensures
        col == compact(col),
    decreases col.len(),
{
    let n = col.len() as int;
    if n == 0 {
        assert(col =~= compact(col));
    } else {
        let dl = col.drop_last();
        assert(settled(dl)) by {
            assert forall|i: int| 1 <= i < dl.len() && (#[trigger] dl[i]) is Empty implies !colored(
                dl[i - 1],
            ) by {
                assert(col[i] == dl[i]);
                assert(col[i - 1] == dl[i - 1]);
            }
        }
        lemma_settled_compact(dl);
        lemma_colored_of_len(dl);
        if colored(col.last()) {
            assert(colored_of(col) =~= colored_of(dl) + seq![col.last()]);
            assert(col =~= compact(col)) by {
                assert forall|i: int| 0 <= i < n implies col[i] == compact(col)[i] by {
                    if i < n - 1 {
                        assert(col[i] == dl[i]);
                        assert(dl[i] == compact(dl)[i]);
                    }
                }
            }
        } else {
            // the bottom cell is empty, so in a settled column every cell is
            assert forall|j: int| 0 <= j < n implies col[j] is Empty by {
                lemma_settled_empty_up(col, n - 1, j);
            }
            assert(colored_of(col) =~= Seq::<Cell>::empty()) by {
                lemma_all_empty_colored_of(col);
            }
            assert(col =~= compact(col));
        }
    }
}

/// In a settled column, everything above an empty cell is empty.
pub proof fn lemma_settled_empty_up(col: Seq<Cell>, i: int, j: int)
    requires
        settled(col),
        0 <= j <= i < col.len(),
        col[i] is Empty,
    ensures
        col[j] is Empty,
    decreases i - j,
{
    if j < i {
        assert(!colored(col[i - 1]));
        lemma_settled_empty_up(col, i - 1, j);
    }
}

pub proof fn lemma_all_empty_colored_of(col: Seq<Cell>)
    requires
        forall|j: int| 0 <= j < col.len() ==> (#[trigger] col[j]) is Empty,
    ensures
        colored_of(col) == Seq::<Cell>::empty(),
    decreases col.len(),
{
    if col.len() > 0 {
        lemma_all_empty_colored_of(col.drop_last());
        assert(colored_of(col) =~= Seq::<Cell>::empty());
    }
}

/// Columns with the same colored cells and length compact identically.
pub proof fn lemma_compact_same(a: Seq<Cell>, b: Seq<Cell>)
    requires
        a.len() == b.len(),
        colored_of(a) == colored_of(b),
    ensures
        compact(a) == compact(b),
{
    assert(compact(a) =~= compact(b));
}

/// In-place single gravity pass over one column, bottom to top. Reports
/// whether anything fell, which happens exactly when the column is not
/// settled.
pub fn gravity_fall_col(col: &mut Vec<Cell>) -> (moved: bool)
    ensures
        final(col)@ == gstep(old(col)@),
        final(col)@.len() == old(col)@.len(),
        moved == !settled(old(col)@),
{
    let n = col.len();
    if n <= 1 {
        proof {
            assert(gstep(old(col)@) == old(col)@);
        }
        return false;
    }
    let ghost orig = col@;
    let mut moved = false;
    let mut i: usize = n - 1;
    loop
        invariant_except_break
            1 <= i <= n - 1,
            col@ == gstep_down(orig, n - 1, i + 1),
        invariant
            n == orig.len(),
            n == col@.len(),
            moved ==> col_measure(col@) < col_measure(orig),
            !moved ==> col@ == orig,
        ensures
            col@ == gstep_down(orig, n - 1, 1),
            moved ==> col_measure(col@) < col_measure(orig),
            !moved ==> col@ == orig,
        decreases i,
    {
        proof {
            lemma_gstep_down_facts(orig, n - 1, i + 1);
        }
        let below = col[i];
        let above = col[i - 1];
        let ghost before = col@;
        let is_empty_below = match below {
            Cell::Empty => true,
            _ => false,
        };
        let is_colored_above = match above {
            Cell::Empty => false,
            _ => true,
        };
        if is_empty_below && is_colored_above {
            col.set(i, above);
            col.set(i - 1, Cell::Empty);
            moved = true;
            proof {
                assert(col@ =~= gstep_at(before, i as int));
                lemma_gstep_at_colored(before, i as int);
                assert(col@[i as int] == before[i as int - 1]);
                assert(col@ != before);
                lemma_gstep_down_facts(orig, n - 1, i as int + 1);
            }
        } else {
            proof {
                assert(col@ =~= gstep_at(before, i as int));
            }
        }
        proof {
            lemma_gstep_down_peel(orig, n - 1, i as int);
        }
        if i == 1 {
            break;
        }
        i = i - 1;
    }
    proof {
        if !moved {
            // nothing fell: the column was already settled
            assert(settled(orig)) by {
                if !settled(orig) {
                    let w = choose|k: int|
                        1 <= k < orig.len() && (#[trigger] orig[k]) is Empty && colored(
                            orig[k - 1],
                        );
                    lemma_unsettled_measure(orig, n - 1);
                    lemma_measure_nonneg(orig, 0);
                }
            }
        } else {
            if settled(orig) {
                lemma_gstep_down_facts(orig, n - 1, 1);
            }
        }
    }
    moved
}

/// After a pass, the top cell holds a token only if the whole column was
/// already full (gravity never refills the top).
pub proof fn lemma_gstep_down_top(col: Seq<Cell>, hi: int)
    requires
        0 <= hi < col.len(),
        colored(gstep_down(col, hi, 1)[0]),
    ensures
        forall|j: int| 0 <= j <= hi ==> colored(#[trigger] col[j]),
    decreases hi,
{
    if hi == 0 {
        assert(gstep_down(col, 0, 1) == col);
    } else {
        let col2 = gstep_at(col, hi);
        assert(gstep_down(col, hi, 1) == gstep_down(col2, hi - 1, 1));
        lemma_gstep_down_top(col2, hi - 1);
        assert(colored(col2[hi - 1]));
        if col[hi] is Empty && colored(col[hi - 1]) {
            assert(col2[hi - 1] is Empty);
            assert(false);
        }
        assert(col2 == col);
        assert forall|j: int| 0 <= j <= hi implies colored(#[trigger] col[j]) by {
            if j < hi {
                assert(colored(col2[j]));
            } else {
                assert(colored(col[hi - 1]));
                assert(!(col[hi] is Empty));
            }
        }
    }
}

/// A full column stays put under a gravity pass, and a pass whose result has
/// a token on top had a full column to begin with.
pub proof fn lemma_gstep_top(col: Seq<Cell>)
    requires
        col.len() >= 1,
        colored(gstep(col)[0]),
    ensures
        forall|j: int| 0 <= j < col.len() ==> colored(#[trigger] col[j]),
        settled(gstep(col)),
{
    lemma_gstep_down_top(col, col.len() - 1);
    assert(settled(col));
    lemma_gstep_down_facts(col, col.len() - 1, 1);
}

/// A gravity pass never creates a marked cell.
pub proof fn lemma_gstep_down_nd(col: Seq<Cell>, hi: int, lo: int)
    requires
        hi < col.len(),
        forall|j: int| 0 <= j < col.len() ==> !((#[trigger] col[j]) is Deleting),
    ensures
        forall|j: int|
            0 <= j < col.len() ==> !((#[trigger] gstep_down(col, hi, lo)[j]) is Deleting),
    decreases hi - lo + 1,
{
    if hi < lo || lo < 1 {
    } else {
        assert forall|j: int|
            0 <= j < col.len() implies !((#[trigger] gstep_at(col, hi)[j]) is Deleting) by {}
        lemma_gstep_at_colored(col, hi);
        lemma_gstep_down_nd(gstep_at(col, hi), hi - 1, lo);
    }
}

/// The colored cells of an unmarked column are unmarked.
pub proof fn lemma_colored_of_nd(col: Seq<Cell>)
    requires
        forall|j: int| 0 <= j < col.len() ==> !((#[trigger] col[j]) is Deleting),
    ensures
        forall|i: int|
            0 <= i < colored_of(col).len() ==> !((#[trigger] colored_of(col)[i]) is Deleting),
    decreases col.len(),
{
    if col.len() > 0 {
        assert forall|j: int|
            0 <= j < col.drop_last().len() implies !((#[trigger] col.drop_last()[j]) is Deleting) by {
            assert(col.drop_last()[j] == col[j]);
        }
        lemma_colored_of_nd(col.drop_last());
    }
}

/// Every cell the colored-cells sequence holds is colored.
pub proof fn lemma_colored_of_colored(col: Seq<Cell>)
    ensures
        forall|i: int| 0 <= i < colored_of(col).len() ==> colored(#[trigger] colored_of(col)[i]),
    decreases col.len(),
{
    if col.len() > 0 {
        lemma_colored_of_colored(col.drop_last());
        assert forall|i: int|
            0 <= i < colored_of(col).len() implies colored(#[trigger] colored_of(col)[i]) by {
            if colored(col.last()) {
                if i < colored_of(col.drop_last()).len() {
                    assert(colored_of(col)[i] == colored_of(col.drop_last())[i]);
                } else {
                    assert(colored_of(col)[i] == col.last());
                }
            } else {
                assert(colored_of(col) =~= colored_of(col.drop_last()));
                assert(colored_of(col)[i] == colored_of(col.drop_last())[i]);
            }
        }
    }
}

/// Compaction never creates a marked cell.
pub proof fn lemma_compact_nd(col: Seq<Cell>)
    requires
        forall|j: int| 0 <= j < col.len() ==> !((#[trigger] col[j]) is Deleting),
    ensures
        forall|j: int| 0 <= j < col.len() ==> !((#[trigger] compact(col)[j]) is Deleting),
{
    lemma_colored_of_nd(col);
    lemma_colored_of_len(col);
}

/// Peeling the pass from the bottom of its range: processing down to `lo`
/// equals processing down to `lo + 1`, then acting at `lo`.
pub proof fn lemma_gstep_down_peel(col: Seq<Cell>, hi: int, lo: int)
    requires
        1 <= lo <= hi,
    ensures
        gstep_down(col, hi, lo) == gstep_at(gstep_down(col, hi, lo + 1), lo),
    decreases hi - lo,
{
    if lo < hi {
        lemma_gstep_down_peel(gstep_at(col, hi), hi - 1, lo);
        assert(gstep_down(col, hi, lo) == gstep_down(gstep_at(col, hi), hi - 1, lo));
        assert(gstep_down(col, hi, lo + 1) == gstep_down(gstep_at(col, hi), hi - 1, lo + 1));
    } else {
        assert(gstep_down(col, hi, lo) == gstep_down(gstep_at(col, hi), hi - 1, lo));
        assert(gstep_down(gstep_at(col, hi), hi - 1, lo) == gstep_at(col, hi));
        assert(gstep_down(col, hi, lo + 1) == col);
    }
}

} // verus!
