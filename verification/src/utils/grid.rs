//! A cubic three-dimensional array of 32-bit cells, stored by the `ndarray` crate.

use vstd::prelude::*;

verus! {

/// A three-dimensional array of `u32` cells held by `ndarray::Array3`. Verus does not
/// look inside: what the array holds is named by [`grid_cells`].
#[verifier::external_body]
pub struct Grid {
    cells: ndarray::Array3<u32>,
}

/// What a grid holds: the value of each cell, by its three indices. The domain is the
/// set of indices that are in bounds.
pub uninterp spec fn grid_cells(g: Grid) -> Map<(int, int, int), u32>;

/// The indices of a cube with `n` cells along each axis.
pub open spec fn in_cube(p: (int, int, int), n: int) -> bool {
    0 <= p.0 < n && 0 <= p.1 < n && 0 <= p.2 < n
}

/// `ndarray::Array3::from_elem` with shape `(n, n, n)`: an array with `n` cells along
/// each axis, each holding `value`. The shape must fit: `from_elem` panics when the
/// number of cells overflows `isize`, and the buffer behind it when their bytes do.
#[verifier::external_body]
pub(crate) fn grid_filled(n: usize, value: u32) -> (g: Grid)
    requires
        4 * (n * n * n) <= isize::MAX,
    ensures
        grid_cells(g) == Map::new(|p: (int, int, int)| in_cube(p, n as int), |p: (int, int, int)| value),
{
    Grid { cells: ndarray::Array3::from_elem((n, n, n), value) }
}

/// Indexing of `ndarray::Array3` by `[x, y, z]`: the cell at an index that is in bounds.
/// Out of bounds the indexing panics.
#[verifier::external_body]
pub(crate) fn grid_get(g: &Grid, x: usize, y: usize, z: usize) -> (value: u32)
    requires
        grid_cells(*g).dom().contains((x as int, y as int, z as int)),
    ensures
        value == grid_cells(*g)[(x as int, y as int, z as int)],
{
    g.cells[[x, y, z]]
}

/// Assignment through the mutable indexing of `ndarray::Array3` by `[x, y, z]`: the cell
/// at the index takes `value`, every other cell keeps its own. Out of bounds the indexing
/// panics.
#[verifier::external_body]
pub(crate) fn grid_set(g: &mut Grid, x: usize, y: usize, z: usize, value: u32)
    requires
        grid_cells(*old(g)).dom().contains((x as int, y as int, z as int)),
    ensures
        grid_cells(*final(g)) == grid_cells(*old(g)).insert((x as int, y as int, z as int), value),
{
    g.cells[[x, y, z]] = value;
}

} // verus!
