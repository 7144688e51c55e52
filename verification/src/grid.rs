//! The tile grid of a board, an `ndarray::Array2<Tile>`, with what the array
//! operations used on it do.
use crate::board::Tile;
use crate::shape::axes_fit;
use vstd::prelude::*;

verus! {

/// A grid of tiles as a sequence of rows.
pub type Tiles = Seq<Seq<Tile>>;

/// An `ndarray::Array2<Tile>` kept opaque: all that is known of it is its
/// contents, [`grid_tiles`].
#[verifier::external_body]
#[derive(Debug)]
pub struct TileGrid {
    cells: ndarray::Array2<Tile>,
}

/// The contents of the array: row `r` of the result holds the elements at
/// the indices `(r, 0)`, `(r, 1)`, ... in this order.
pub uninterp spec fn grid_tiles(grid: TileGrid) -> Tiles;

impl View for TileGrid {
    type V = Tiles;

    open spec fn view(&self) -> Tiles {
        grid_tiles(*self)
    }
}

impl TileGrid {
    /// `ArrayBase::from_elem`: an array of `rows` by `cols` copies of `tile`.
    #[verifier::external_body]
    pub(crate) fn filled(rows: usize, cols: usize, tile: Tile) -> (grid: TileGrid)
        requires
            axes_fit(rows as nat, cols as nat),
        ensures
            grid_tiles(grid) == Seq::new(
                rows as nat,
                |r: int| Seq::new(cols as nat, |c: int| tile),
            ),
    {
        TileGrid { cells: ndarray::Array2::from_elem((rows, cols), tile) }
    }

    /// `ArrayBase::dim`: the number of rows and, where there is a row, the
    /// length of the rows.
    #[verifier::external_body]
    pub(crate) fn dim(&self) -> (dim: (usize, usize))
        ensures
            dim.0 == grid_tiles(*self).len(),
            grid_tiles(*self).len() > 0 ==> dim.1 == grid_tiles(*self)[0].len(),
    {
        self.cells.dim()
    }

    /// `ArrayBase::get`: the element at row `x`, column `y`, or `None` when
    /// there is no such row or column.
    #[verifier::external_body]
    pub(crate) fn get(&self, x: usize, y: usize) -> (tile: Option<Tile>)
        ensures
            tile == (if x < grid_tiles(*self).len() && y < grid_tiles(*self)[x as int].len() {
                Some(grid_tiles(*self)[x as int][y as int])
            } else {
                None
            }),
    {
        self.cells.get((x, y)).copied()
    }

    /// Assignment through `IndexMut::index_mut`: the element at row `x`,
    /// column `y` becomes `tile`, all others stay.
    #[verifier::external_body]
    pub(crate) fn set(&mut self, x: usize, y: usize, tile: Tile)
        requires
            x < grid_tiles(*old(self)).len(),
            y < grid_tiles(*old(self))[x as int].len(),
        ensures
            grid_tiles(*final(self)) == grid_tiles(*old(self)).update(
                x as int,
                grid_tiles(*old(self))[x as int].update(y as int, tile),
            ),
    {
        self.cells[(x, y)] = tile;
    }
}

} // verus!
