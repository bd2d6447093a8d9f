use crate::gamedata::Tile;
use vstd::prelude::*;

verus! {

#[verifier::external_type_specification]
#[verifier::external_body]
#[verifier::reject_recursive_types(T)]
pub struct ExGrid<T>(grid::Grid<T>);

/// The tiles a grid holds, row-major.
pub uninterp spec fn grid_seq(g: grid::Grid<Tile>) -> Seq<Tile>;

/// The column count the grid was built with.
pub uninterp spec fn grid_cols(g: grid::Grid<Tile>) -> nat;

/// A square board: as many rows as columns, tiles stored row-major.
pub open spec fn grid_square(g: grid::Grid<Tile>) -> bool {
    grid_seq(g).len() == grid_cols(g) * grid_cols(g)
}

/// Relies on grid::Grid::from_vec: builds a row-major grid holding
/// exactly the given tiles, with the given column count. It panics when
/// the length is no multiple of the column count, which the
/// precondition rules out.
#[verifier::external_body]
pub(crate) fn grid_from_vec(v: Vec<Tile>, cols: usize) -> (g: grid::Grid<Tile>)
    requires
        cols >= 1,
        v@.len() == cols * cols,
    ensures
        grid_seq(g) == v@,
        grid_cols(g) == cols,
{
    grid::Grid::from_vec(v, cols)
}

/// Relies on grid::Grid::get: returns the element at (row, col) of a
/// row-major grid, `Some` exactly when both indices are in bounds.
#[verifier::external_body]
pub(crate) fn grid_get_tile(g: &grid::Grid<Tile>, row: usize, col: usize) -> (t: Tile)
    requires
        grid_square(*g),
        row < grid_cols(*g),
        col < grid_cols(*g),
    ensures
        t == grid_seq(*g)[row * grid_cols(*g) + col],
{
    *g.get(row, col).unwrap()
}

/// Relies on grid::Grid::get_mut: a mutable reference to the element at
/// (row, col) of a row-major grid, `Some` exactly when both indices are
/// in bounds.
#[verifier::external_body]
pub(crate) fn grid_set_tile(g: &mut grid::Grid<Tile>, row: usize, col: usize, t: Tile)
    requires
        grid_square(*old(g)),
        row < grid_cols(*old(g)),
        col < grid_cols(*old(g)),
    ensures
        grid_seq(*final(g)) == grid_seq(*old(g)).update(
            row as int * grid_cols(*old(g)) as int + col as int,
            t,
        ),
        grid_cols(*final(g)) == grid_cols(*old(g)),
{
    *g.get_mut(row, col).unwrap() = t;
}

} // verus!
