//! The base grid of predictor nodes, held in an `array2d::Array2D`.

use vstd::prelude::*;
use array2d::Array2D;
use crate::graph::Node;

verus! {

#[verifier::external_type_specification]
#[verifier::external_body]
#[verifier::reject_recursive_types(T)]
pub struct ExArray2D<T>(Array2D<T>);

/// What a grid of nodes holds, row by row.
pub uninterp spec fn grid_rows(g: Array2D<Node>) -> Seq<Seq<Node>>;

/// Relies on `Array2D::filled_with`: `num_rows` rows of `num_columns`
/// copies of `element`.
#[verifier::external_body]
pub(crate) fn grid_filled(element: Node, num_rows: usize, num_columns: usize) -> (g: Array2D<Node>)
    requires
        num_rows * num_columns <= 0x10_0000,
    ensures
        grid_rows(g).len() == num_rows,
        forall|r: int| 0 <= r < num_rows ==> (#[trigger] grid_rows(g)[r]).len() == num_columns,
        forall|r: int, c: int|
            0 <= r < num_rows && 0 <= c < num_columns ==> #[trigger] grid_rows(g)[r][c] == element,
{
    Array2D::filled_with(element, num_rows, num_columns)
}

/// Relies on `Index<(usize, usize)>` for `Array2D`: the element at
/// `(row, column)`, which must be in bounds.
#[verifier::external_body]
pub(crate) fn grid_get(g: &Array2D<Node>, row: usize, column: usize) -> (n: Node)
    requires
        row < grid_rows(*g).len(),
        column < grid_rows(*g)[row as int].len(),
    ensures
        n == grid_rows(*g)[row as int][column as int],
{
    g[(row, column)]
}

/// Relies on `IndexMut<(usize, usize)>` for `Array2D`: replaces the element
/// at `(row, column)`, which must be in bounds, and nothing else.
#[verifier::external_body]
pub(crate) fn grid_set(g: &mut Array2D<Node>, row: usize, column: usize, n: Node)
    requires
        row < grid_rows(*old(g)).len(),
        column < grid_rows(*old(g))[row as int].len(),
    ensures
        grid_rows(*final(g)) == grid_rows(*old(g)).update(
            row as int,
            grid_rows(*old(g))[row as int].update(column as int, n),
        ),
{
    g[(row, column)] = n;
}

} // verus!
