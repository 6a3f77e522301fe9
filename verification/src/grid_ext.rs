use vstd::prelude::*;
use crate::cell::Cell;

verus! {

#[verifier::external_type_specification]
#[verifier::external_body]
#[verifier::reject_recursive_types(T)]
pub struct ExArray2D<T>(array2d::Array2D<T>);

/// The cells an array2d grid holds, as its sequence of rows (row-major).
pub uninterp spec fn grid_cells(a: array2d::Array2D<Cell>) -> Seq<Seq<Cell>>;

/// The column count the grid was built with.
pub uninterp spec fn grid_width(a: array2d::Array2D<Cell>) -> nat;

/// Relies on Array2D::from_rows: packs equal-length rows into a grid,
/// row-major; with equal-length rows it cannot fail.
#[verifier::external_body]
pub(crate) fn arr_from_rows(rows: &Vec<Vec<Cell>>) -> (g: array2d::Array2D<Cell>)
    requires
        forall|i: int| 0 <= i < rows@.len() ==> (#[trigger] rows@[i]@).len() == rows@[0]@.len(),
        rows@.len() == 0 || rows@.len() * rows@[0]@.len() <= usize::MAX,
    ensures
        grid_cells(g).len() == rows@.len(),
        grid_width(g) == if rows@.len() == 0 { 0int } else { rows@[0]@.len() as int },
        forall|i: int| 0 <= i < rows@.len() ==> grid_cells(g)[i] == #[trigger] rows@[i]@,
{
    array2d::Array2D::from_rows(rows.as_slice()).unwrap()
}

/// Relies on Array2D::get: Some of a reference to the addressed cell exactly
/// on in-bounds addresses, None otherwise.
#[verifier::external_body]
pub(crate) fn arr_get(a: &array2d::Array2D<Cell>, r: usize, c: usize) -> (res: Option<&Cell>)
    ensures
        (r < grid_cells(*a).len() && c < grid_width(*a)) ==> (res is Some && *res.unwrap()
            == grid_cells(*a)[r as int][c as int]),
        !(r < grid_cells(*a).len() && c < grid_width(*a)) ==> res is None,
{
    a.get(r, c)
}

/// Relies on Array2D::set: overwrites exactly the addressed cell and reports
/// success; an out-of-bounds address leaves the grid unchanged.
#[verifier::external_body]
pub(crate) fn arr_set(a: &mut array2d::Array2D<Cell>, r: usize, c: usize, v: Cell) -> (ok: bool)
    ensures
        ok == (r < grid_cells(*old(a)).len() && c < grid_width(*old(a))),
        ok ==> grid_cells(*final(a)) == grid_cells(*old(a)).update(
            r as int,
            grid_cells(*old(a))[r as int].update(c as int, v),
        ),
        !ok ==> grid_cells(*final(a)) == grid_cells(*old(a)),
        grid_width(*final(a)) == grid_width(*old(a)),
{
    a.set(r, c, v).is_ok()
}

/// Relies on Array2D::column_len: the number of rows.
#[verifier::external_body]
pub(crate) fn arr_num_rows(a: &array2d::Array2D<Cell>) -> (r: usize)
    ensures
        r == grid_cells(*a).len(),
{
    a.column_len()
}

/// Relies on Array2D::row_len: the number of columns.
#[verifier::external_body]
pub(crate) fn arr_num_cols(a: &array2d::Array2D<Cell>) -> (r: usize)
    ensures
        r == grid_width(*a),
{
    a.row_len()
}

} // verus!
