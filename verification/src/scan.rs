use vstd::prelude::*;
use crate::cell::{Cell, Color, colored, cell_color, same_colored};

verus! {

/// One detected run: its color, its length (at least 3), the fixed index of
/// the scanned line (`outer_index`), and the offset one past the run's last
/// element along the line (`inner_index`). The run's cells are
/// `[inner_index - length, inner_index)` along the scanned axis.
#[derive(Clone, Copy, Debug, PartialEq, Eq, Structural)]
pub struct Match {
    pub length: usize,
    pub color: Color,
    pub inner_index: usize,
    pub outer_index: usize,
}

/// Length of the maximal same-colored run that ends just before position `i`
/// (zero if position `i - 1` is out of range or empty).
pub open spec fn run_len(line: Seq<Cell>, i: int) -> int
    decreases i,
{
    if i <= 0 || i > line.len() {
        0
    } else if !colored(line[i - 1]) {
        0
    } else if i == 1 {
        1
    } else if same_colored(line[i - 2], line[i - 1]) {
        run_len(line, i - 1) + 1
    } else {
        1
    }
}

/// The run ending just before `i` cannot extend through position `i`.
pub open spec fn run_broken_at(line: Seq<Cell>, i: int) -> bool {
    i == line.len() || !colored(line[i]) || !same_colored(line[i - 1], line[i])
}

/// A maximal run of length at least 3 ends just before `i`.
pub open spec fn is_match_end(line: Seq<Cell>, i: int) -> bool {
    0 < i <= line.len() && run_broken_at(line, i) && run_len(line, i) >= 3
}

/// Position `j` of the line lies inside some maximal run of length >= 3.
pub open spec fn in_match(line: Seq<Cell>, j: int) -> bool {
    exists|i: int| is_match_end(line, i) && i - run_len(line, i) <= j < i
}

/// How many maximal runs of length >= 3 end at or before position `i`.
pub open spec fn match_count_upto(line: Seq<Cell>, i: int) -> int
    decreases i,
{
    if i <= 0 {
        0
    } else {
        match_count_upto(line, i - 1) + if is_match_end(line, i) {
            1int
        } else {
            0int
        }
    }
}

/// The number of maximal runs of length >= 3 in the line.
pub open spec fn line_match_count(line: Seq<Cell>) -> int {
    match_count_upto(line, line.len() as int)
}

/// Total length of maximal runs of length >= 3 ending at or before `i`.
pub open spec fn match_len_upto(line: Seq<Cell>, i: int) -> int
    decreases i,
{
    if i <= 0 {
        0
    } else {
        match_len_upto(line, i - 1) + if is_match_end(line, i) {
            run_len(line, i)
        } else {
            0int
        }
    }
}

/// Total length of all maximal runs of length >= 3 in the line.
pub open spec fn line_match_len(line: Seq<Cell>) -> int {
    match_len_upto(line, line.len() as int)
}

/// Sum of the lengths of a sequence of Match records.
pub open spec fn matches_len_sum(ms: Seq<Match>) -> int
    decreases ms.len(),
{
    if ms.len() == 0 {
        0
    } else {
        matches_len_sum(ms.drop_last()) + ms.last().length
    }
}

/// A Match record correctly describes one maximal run of `line`.
pub open spec fn valid_match(outer: int, line: Seq<Cell>, m: Match) -> bool {
    &&& is_match_end(line, m.inner_index as int)
    &&& m.length == run_len(line, m.inner_index as int)
    &&& m.outer_index == outer
    &&& Some(m.color) == cell_color(line[m.inner_index as int - 1])
}

/// Every cell of the run ending before `i` is colored with the run's color.
pub proof fn lemma_run_struct(line: Seq<Cell>, i: int, j: int)
    requires
        0 < i <= line.len(),
        i - run_len(line, i) <= j < i,
    ensures
        colored(line[j]),
        cell_color(line[j]) == cell_color(line[i - 1]),
    decreases i,
{
    if j < i - 1 {
        lemma_run_struct(line, i - 1, j);
    }
}

/// A broken position below `i` bounds the run ending before `i`.
pub proof fn lemma_run_barrier(line: Seq<Cell>, b: int, i: int)
    requires
        0 <= b < i <= line.len(),
        run_broken_at(line, b),
    ensures
        run_len(line, i) <= i - b,
    decreases i,
{
    if run_len(line, i) >= 2 {
        if i - 1 > b {
            lemma_run_barrier(line, b, i - 1);
        }
    }
}

/// Positions strictly inside a run are not broken.
pub proof fn lemma_run_not_broken(line: Seq<Cell>, i: int, j: int)
    requires
        0 < i <= line.len(),
        i - run_len(line, i) < j < i,
    ensures
        !run_broken_at(line, j),
{
    lemma_run_struct(line, i, j);
    lemma_run_struct(line, i, j - 1);
}

/// Between two positions with no run end in between, the running totals of
/// match count and matched length do not change.
pub proof fn lemma_upto_const(line: Seq<Cell>, a: int, b: int)
    requires
        a <= b,
        forall|j: int| a < j <= b ==> !is_match_end(line, j),
    ensures
        match_len_upto(line, b) == match_len_upto(line, a),
        match_count_upto(line, b) == match_count_upto(line, a),
    decreases b - a,
{
    if a < b {
        lemma_upto_const(line, a, b - 1);
    }
}

/// The matched length up to `i` never exceeds `i`, and each match contributes
/// at least 3 to it.
pub proof fn lemma_upto_bounds(line: Seq<Cell>, i: int)
    requires
        0 <= i <= line.len(),
    ensures
        0 <= 3 * match_count_upto(line, i),
        3 * match_count_upto(line, i) <= match_len_upto(line, i),
        match_len_upto(line, i) <= i,
    decreases i,
{
    if i > 0 {
        if is_match_end(line, i) {
            let s = i - run_len(line, i);
            assert(run_len(line, i) <= i) by {
                lemma_run_len_le(line, i);
            }
            assert forall|j: int| s < j <= i - 1 implies !is_match_end(line, j) by {
                lemma_run_not_broken(line, i, j);
            }
            lemma_upto_const(line, s, i - 1);
            lemma_upto_bounds(line, s);
        } else {
            lemma_upto_bounds(line, i - 1);
        }
    }
}

/// A run never reaches back past the start of the line.
pub proof fn lemma_run_len_le(line: Seq<Cell>, i: int)
    requires
        0 <= i <= line.len(),
    ensures
        0 <= run_len(line, i) <= i,
    decreases i,
{
    if i > 1 {
        lemma_run_len_le(line, i - 1);
    }
}

pub proof fn lemma_matches_sum_step(ms: Seq<Match>, j: int)
    requires
        0 <= j < ms.len(),
    ensures
        matches_len_sum(ms.take(j + 1)) == matches_len_sum(ms.take(j)) + ms[j].length,
{
    assert(ms.take(j + 1).drop_last() =~= ms.take(j));
    assert(ms.take(j + 1).last() == ms[j]);
}

pub proof fn lemma_matches_sum_nonneg(ms: Seq<Match>)
    ensures
        matches_len_sum(ms) >= 0,
    decreases ms.len(),
{
    if ms.len() > 0 {
        lemma_matches_sum_nonneg(ms.drop_last());
    }
}

pub proof fn lemma_matches_sum_prefix_le(ms: Seq<Match>, j: int)
    requires
        0 <= j <= ms.len(),
    ensures
        matches_len_sum(ms.take(j)) <= matches_len_sum(ms),
    decreases ms.len() - j,
{
    if j == ms.len() {
        assert(ms.take(j) =~= ms);
    } else {
        lemma_matches_sum_step(ms, j);
        lemma_matches_sum_prefix_le(ms, j + 1);
    }
}

/// The end position of the maximal run containing position `j`.
pub open spec fn run_end_of(line: Seq<Cell>, j: int) -> int
    decreases line.len() - j,
{
    if j < 0 || j + 1 >= line.len() || run_broken_at(line, j + 1) {
        j + 1
    } else {
        run_end_of(line, j + 1)
    }
}

/// The maximal run containing a colored position reaches back at least to it.
pub proof fn lemma_run_end_of(line: Seq<Cell>, j: int)
    requires
        0 <= j < line.len(),
        colored(line[j]),
    ensures
        j + 1 <= run_end_of(line, j) <= line.len(),
        run_broken_at(line, run_end_of(line, j)),
        run_len(line, run_end_of(line, j)) >= run_len(line, j + 1) + (run_end_of(line, j) - (j
            + 1)),
        run_len(line, j + 1) >= 1,
    decreases line.len() - j,
{
    lemma_run_len_le(line, j);
    assert(run_len(line, j + 1) >= 1);
    if j + 1 >= line.len() || run_broken_at(line, j + 1) {
    } else {
        assert(colored(line[j + 1]));
        lemma_run_end_of(line, j + 1);
        assert(run_len(line, j + 2) == run_len(line, j + 1) + 1);
    }
}

/// A line in which every matched cell was emptied, and no cell otherwise
/// changed except to become empty, has no match at all.
pub proof fn lemma_delete_no_match(a: Seq<Cell>, b: Seq<Cell>)
    requires
        a.len() == b.len(),
        forall|j: int| 0 <= j < a.len() ==> #[trigger] b[j] == a[j] || b[j] is Empty,
        forall|j: int| 0 <= j < a.len() && in_match(a, j) ==> (#[trigger] b[j]) is Empty,
    ensures
        forall|i: int| !is_match_end(b, i),
        line_match_count(b) == 0,
        line_match_len(b) == 0,
{
    assert forall|i: int| !is_match_end(b, i) by {
        if is_match_end(b, i) {
            lemma_run_len_le(b, i);
            lemma_run_struct(b, i, i - 1);
            lemma_run_struct(b, i, i - 2);
            lemma_run_struct(b, i, i - 3);
            // those three cells are colored in b, hence unchanged from a,
            // so they form an unbroken same-colored stretch of a
            assert(b[i - 1] == a[i - 1]);
            assert(b[i - 2] == a[i - 2]);
            assert(b[i - 3] == a[i - 3]);
            assert(!run_broken_at(a, i - 1));
            assert(!run_broken_at(a, i - 2));
            let e = run_end_of(a, i - 3);
            lemma_run_end_of(a, i - 3);
            assert(run_end_of(a, i - 2) == e);
            assert(run_end_of(a, i - 1) == e);
            lemma_run_end_of(a, i - 1);
            assert(e >= i);
            assert(run_len(a, e) >= 3);
            assert(e - run_len(a, e) <= i - 3);
            assert(is_match_end(a, e));
            assert(in_match(a, i - 1));
            assert(b[i - 1] is Empty);
            assert(false);
        }
    }
    lemma_no_end_zero(b, b.len() as int);
}

/// With no run end anywhere, the running totals are zero.
pub proof fn lemma_no_end_zero(line: Seq<Cell>, i: int)
    requires
        forall|j: int| !is_match_end(line, j),
    ensures
        match_count_upto(line, i) == 0,
        match_len_upto(line, i) == 0,
    decreases i,
{
    if i > 0 {
        lemma_no_end_zero(line, i - 1);
    }
}

/// Scan one full row or column (`line`, with its fixed index `outer_index`)
/// and report every maximal run of length >= 3 of consecutive colored tokens
/// sharing one color, in order of their end positions.
pub fn check_line(outer_index: usize, line: &Vec<Cell>) -> (r: Vec<Match>)
    ensures
        forall|k: int| 0 <= k < r@.len() ==> valid_match(outer_index as int, line@, #[trigger] r@[k]),
        forall|i: int|
            is_match_end(line@, i) ==> exists|k: int|
                0 <= k < r@.len() && (#[trigger] r@[k]).inner_index == i,
        forall|k1: int, k2: int|
            #![trigger r@[k1], r@[k2]]
            0 <= k1 < k2 < r@.len() ==> r@[k1].inner_index < r@[k2].inner_index,
        r@.len() == line_match_count(line@),
        matches_len_sum(r@) == line_match_len(line@),
{
    let len = line.len();
    let mut matches: Vec<Match> = Vec::new();
    let mut count: usize = 1;
    let mut idx: usize = 0;
    while idx < len
        invariant
            len == line@.len(),
            idx <= len,
            idx == 0 ==> count == 1,
            idx >= 1 && colored(line@[idx - 1]) ==> count == run_len(line@, idx as int),
            idx >= 1 && !colored(line@[idx - 1]) ==> count == 1,
            1 <= count,
            count <= if idx == 0 { 1int } else { idx as int },
            matches@.len() == match_count_upto(line@, idx - 1),
            matches_len_sum(matches@) == match_len_upto(line@, idx - 1),
            forall|k: int|
                0 <= k < matches@.len() ==> valid_match(outer_index as int, line@, #[trigger] matches@[k]),
            forall|k: int|
                0 <= k < matches@.len() ==> (#[trigger] matches@[k]).inner_index < idx,
            forall|i: int|
                0 < i <= idx - 1 && is_match_end(line@, i) ==> exists|k: int|
                    0 <= k < matches@.len() && (#[trigger] matches@[k]).inner_index == i,
            forall|k1: int, k2: int|
                #![trigger matches@[k1], matches@[k2]]
                0 <= k1 < k2 < matches@.len() ==> matches@[k1].inner_index
                    < matches@[k2].inner_index,
        decreases len - idx,
    {
        let cur = line[idx];
        let ghost pre_it = matches@;
        if idx > 0 {
            let prev = line[idx - 1];
            let same = match (prev, cur) {
                (Cell::Normal(a), Cell::Normal(b)) => a == b,
                (Cell::Normal(a), Cell::Deleting(b)) => a == b,
                (Cell::Deleting(a), Cell::Normal(b)) => a == b,
                (Cell::Deleting(a), Cell::Deleting(b)) => a == b,
                _ => false,
            };
            proof {
                assert(same == same_colored(line@[idx - 1], line@[idx as int]));
            }
            if same {
                proof {
                    assert(run_len(line@, idx + 1) == run_len(line@, idx as int) + 1);
                    assert(!is_match_end(line@, idx as int));
                    lemma_run_len_le(line@, idx as int);
                }
                count = count + 1;
            } else {
                proof {
                    assert(run_broken_at(line@, idx as int));
                }
                match prev {
                    Cell::Normal(k) | Cell::Deleting(k) => {
                        if count >= 3 {
                            let m = Match {
                                length: count,
                                color: k,
                                inner_index: idx,
                                outer_index,
                            };
                            proof {
                                assert(is_match_end(line@, idx as int));
                                assert((matches@.push(m)).drop_last() =~= matches@);
                            }
                            matches.push(m);
                            proof {
                                assert(matches@ == pre_it.push(m));
                                assert forall|i: int|
                                    0 < i <= idx && is_match_end(line@, i) implies exists|k: int|
                                    0 <= k < matches@.len() && (#[trigger] matches@[k]).inner_index
                                    == i by {
                                    if i < idx {
                                        let k = choose|k: int|
                                            0 <= k < pre_it.len() && (#[trigger] pre_it[k]).inner_index
                                                == i;
                                        assert(matches@[k] == pre_it[k]);
                                    } else {
                                        assert(matches@[pre_it.len() as int] == m);
                                    }
                                }
                            }
                        } else {
                            proof {
                                assert(!is_match_end(line@, idx as int));
                            }
                        }
                    },
                    Cell::Empty => {
                        proof {
                            assert(run_len(line@, idx as int) == 0);
                            assert(!is_match_end(line@, idx as int));
                        }
                    },
                }
                count = 1;
            }
        }
        idx = idx + 1;
    }
    let ghost pre = matches@;
    if len > 0 && count >= 3 {
        let last = line[len - 1];
        match last {
            Cell::Normal(k) | Cell::Deleting(k) => {
                let m = Match { length: count, color: k, inner_index: len, outer_index };
                proof {
                    assert(is_match_end(line@, len as int));
                    assert((matches@.push(m)).drop_last() =~= matches@);
                }
                matches.push(m);
                proof {
                    assert(matches@ == pre.push(m));
                    assert forall|i: int| is_match_end(line@, i) implies exists|k: int|
                        0 <= k < matches@.len() && (#[trigger] matches@[k]).inner_index == i by {
                        assert(0 < i <= len);
                        if i < len {
                            let k = choose|k: int|
                                0 <= k < pre.len() && (#[trigger] pre[k]).inner_index == i;
                            assert(matches@[k] == pre[k]);
                        } else {
                            assert(matches@[pre.len() as int] == m);
                        }
                    }
                }
            },
            Cell::Empty => {
                proof {
                    assert(run_len(line@, len as int) == 0);
                    assert(!is_match_end(line@, len as int));
                }
            },
        }
    } else {
        proof {
            if len > 0 {
                assert(!is_match_end(line@, len as int));
            }
        }
    }
    matches
}

} // verus!
