//! The footprint of a piece: a rectangular grid of booleans, `true` where the
//! piece covers a cell.  The grid itself is an `ndarray::Array2<bool>`; this
//! module states what the array operations used on it do, and defines the
//! geometry (quarter turns, covered cells) on the mathematical grid.
use crate::position::Position;
use vstd::prelude::*;

verus! {

/// A grid of booleans as a sequence of rows.
pub type Cells = Seq<Seq<bool>>;

/// An `ndarray::Array2<bool>` kept opaque: all that is known of it is its
/// contents, [`shape_cells`].
#[verifier::external_body]
#[derive(PartialEq, Eq, Hash, Debug)]
pub struct Shape {
    cells: ndarray::Array2<bool>,
}

/// The contents of the array: row `r` of the result holds the elements at
/// the indices `(r, 0)`, `(r, 1)`, ... in this order.
pub uninterp spec fn shape_cells(shape: Shape) -> Cells;

impl View for Shape {
    type V = Cells;

    open spec fn view(&self) -> Cells {
        shape_cells(*self)
    }
}

/// Every row is as long as the first.
pub open spec fn is_rectangular(cells: Cells) -> bool {
    forall|r: int| 0 <= r < cells.len() ==> (#[trigger] cells[r]).len() == cells[0].len()
}

/// Length of the rows of a rectangular grid; zero for a grid without rows.
pub open spec fn width(cells: Cells) -> nat {
    if cells.len() == 0 {
        0
    } else {
        cells[0].len()
    }
}

/// A rectangular grid with at least one row and one column, and with no more
/// of either than a `usize` counts.
pub open spec fn is_solid(cells: Cells) -> bool {
    &&& 0 < cells.len() <= usize::MAX
    &&& 0 < width(cells) <= usize::MAX
    &&& is_rectangular(cells)
}

/// The grid holds `true` at row `p.x`, column `p.y`.
pub open spec fn covers(cells: Cells, p: Position) -> bool {
    p.x < cells.len() && p.y < width(cells) && cells[p.x as int][p.y as int]
}

/// `a` comes before `b` when cells are read row after row.
pub open spec fn precedes(a: Position, b: Position) -> bool {
    a.x < b.x || (a.x == b.x && a.y < b.y)
}

/// The grid with rows and columns exchanged.
pub open spec fn transposed(cells: Cells) -> Cells {
    Seq::new(width(cells), |r: int| Seq::new(cells.len(), |c: int| cells[c][r]))
}

/// The grid with its rows in opposite order.
pub open spec fn upside_down(cells: Cells) -> Cells {
    Seq::new(cells.len(), |r: int| cells[cells.len() - 1 - r])
}

/// The grid with each of its rows in opposite order.
pub open spec fn mirrored(cells: Cells) -> Cells {
    Seq::new(cells.len(), |r: int| cells[r].reverse())
}

/// The grid after a quarter turn clockwise: what was the bottom of the first
/// column becomes the start of the first row.
pub open spec fn turned_clockwise(cells: Cells) -> Cells {
    Seq::new(
        width(cells),
        |r: int| Seq::new(cells.len(), |c: int| cells[cells.len() - 1 - c][r]),
    )
}

/// The grid after a quarter turn counterclockwise: what was the end of the
/// first row becomes the top of the first column.
pub open spec fn turned_counterclockwise(cells: Cells) -> Cells {
    Seq::new(
        width(cells),
        |r: int| Seq::new(cells.len(), |c: int| cells[c][width(cells) - 1 - r]),
    )
}

/// The grid after a half turn.
pub open spec fn turned_around(cells: Cells) -> Cells {
    Seq::new(
        cells.len(),
        |r: int|
            Seq::new(width(cells), |c: int| cells[cells.len() - 1 - r][width(cells) - 1 - c]),
    )
}

/// The elements of a rectangular grid with their indices, row after row.
pub open spec fn indexed(cells: Cells) -> Seq<((usize, usize), bool)> {
    Seq::new(
        cells.len() * width(cells),
        |k: int|
            (
                ((k / width(cells) as int) as usize, (k % width(cells) as int) as usize),
                cells[k / width(cells) as int][k % width(cells) as int],
            ),
    )
}

/// The cell an indexed element stands for, if the element is `true`.
pub open spec fn covered(item: ((usize, usize), bool)) -> Option<Position> {
    if item.1 {
        Some(Position { x: item.0.0, y: item.0.1 })
    } else {
        None
    }
}

/// The cells at which the grid holds `true`, row after row and from left to
/// right within a row.
pub open spec fn occupied(cells: Cells) -> Seq<Position> {
    indexed(cells).filter_map(|item: ((usize, usize), bool)| covered(item))
}

/// Whether lengths `rows` and `cols` can be the two axes of an array: the
/// product of those that are not zero must not exceed `isize::MAX`.
pub open spec fn axes_fit(rows: nat, cols: nat) -> bool {
    if rows == 0 {
        cols <= isize::MAX
    } else if cols == 0 {
        rows <= isize::MAX
    } else {
        rows * cols <= isize::MAX
    }
}

/// An index into the row-major listing of a grid with rows of length `w`
/// is its row times `w` plus its column.
pub proof fn lemma_index_joins(k: int, w: int)
    requires
        0 <= k,
        0 < w,
    ensures
        k == (k / w) * w + k % w,
        0 <= k % w < w,
        0 <= k / w,
{
    vstd::arithmetic::div_mod::lemma_fundamental_div_mod(k, w);
    vstd::arithmetic::div_mod::lemma_mod_bound(k, w);
    assert((k / w) * w == w * (k / w)) by (nonlinear_arith);
    if k / w < 0 {
        assert((k / w) * w <= -w) by (nonlinear_arith)
            requires
                k / w <= -1,
                0 < w,
        ;
    }
}

/// Row `r` and column `c` of a grid with rows of length `w` stand at index
/// `r * w + c` of its row-major listing, and nowhere else.
pub proof fn lemma_index_splits(r: int, c: int, w: int)
    requires
        0 <= c < w,
    ensures
        (r * w + c) / w == r,
        (r * w + c) % w == c,
{
    vstd::arithmetic::div_mod::lemma_fundamental_div_mod_converse(r * w + c, w, r, c);
}

/// An index below `rows * w` lies in a row below `rows`.
pub proof fn lemma_row_of_index(k: int, rows: int, w: int)
    requires
        0 <= k < rows * w,
        0 < w,
    ensures
        0 <= k / w < rows,
{
    lemma_index_joins(k, w);
    if k / w >= rows {
        assert((k / w) * w >= rows * w) by (nonlinear_arith)
            requires
                k / w >= rows,
                0 < w,
        ;
    }
}

/// The covered cells among the first `k` elements of the row-major listing.
spec fn occupied_among(cells: Cells, k: int) -> Seq<Position> {
    indexed(cells).take(k).filter_map(|item: ((usize, usize), bool)| covered(item))
}

proof fn lemma_occupied_among(cells: Cells, k: int)
    requires
        is_solid(cells),
        0 <= k <= cells.len() * width(cells),
    ensures
        forall|p: Position| #[trigger]
            occupied_among(cells, k).contains(p) <==> covers(cells, p) && p.x * width(cells) + p.y
                < k,
        forall|i: int, j: int|
            0 <= i < j < occupied_among(cells, k).len() ==> precedes(
                #[trigger] occupied_among(cells, k)[i],
                #[trigger] occupied_among(cells, k)[j],
            ),
    decreases k,
{
    let w = width(cells) as int;
    let pick = |item: ((usize, usize), bool)| covered(item);
    let now = occupied_among(cells, k);
    if k == 0 {
        assert(indexed(cells).take(0) =~= Seq::empty());
        assert(now =~= Seq::empty());
        assert forall|p: Position| covers(cells, p) implies p.x * w + p.y >= 0 by {
            assert(p.x * w >= 0) by (nonlinear_arith)
                requires
                    p.x >= 0,
                    w >= 0,
            ;
        }
    } else {
        let j = k - 1;
        lemma_occupied_among(cells, j);
        let before = occupied_among(cells, j);
        indexed(cells).lemma_filter_map_take_succ(pick, j);
        lemma_index_joins(j, w);
        lemma_row_of_index(j, cells.len() as int, w);
        let r = j / w;
        let c = j % w;
        let q = Position { x: r as usize, y: c as usize };
        assert(indexed(cells)[j] == ((r as usize, c as usize), cells[r][c]));
        assert forall|p: Position| covers(cells, p) && p.x * w + p.y == j implies p == q by {
            lemma_index_splits(p.x as int, p.y as int, w);
        }
        if cells[r][c] {
            assert(now =~= before + seq![q]);
            assert forall|p: Position| now.contains(p) implies covers(cells, p) && p.x * w + p.y
                < k by {
                let i = choose|i: int| 0 <= i < now.len() && now[i] == p;
                if i < before.len() {
                    assert(before[i] == p);
                    assert(before.contains(p));
                }
            }
            assert forall|p: Position| covers(cells, p) && p.x * w + p.y < k implies now.contains(
                p,
            ) by {
                if p.x * w + p.y < j {
                    assert(before.contains(p));
                    let i = choose|i: int| 0 <= i < before.len() && before[i] == p;
                    assert(now[i] == p);
                } else {
                    assert(now[before.len() as int] == q);
                }
            }
            assert forall|a: int, b: int| 0 <= a < b < now.len() implies precedes(
                #[trigger] now[a],
                #[trigger] now[b],
            ) by {
                if b < before.len() {
                    assert(now[a] == before[a] && now[b] == before[b]);
                } else {
                    assert(now[a] == before[a]);
                    assert(before.contains(before[a]));
                    lemma_index_order(before[a], q, w);
                }
            }
        } else {
            assert(now =~= before);
            assert forall|p: Position| covers(cells, p) && p.x * w + p.y < k implies now.contains(
                p,
            ) by {
                if p.x * w + p.y < j {
                    assert(before.contains(p));
                }
            }
        }
    }
}

/// Among cells of a grid with rows of length `w`, the one with the smaller
/// row-major index comes first.
proof fn lemma_index_order(a: Position, b: Position, w: int)
    requires
        a.y < w,
        b.y < w,
        a.x * w + a.y < b.x * w + b.y,
    ensures
        precedes(a, b),
{
    if a.x > b.x {
        assert(a.x * w >= b.x * w + w) by (nonlinear_arith)
            requires
                a.x >= b.x + 1,
                w > 0,
        ;
    }
}

/// The covered cells of a grid are exactly the cells at which it holds `true`,
/// each listed once, in row-major order; so the first of them is the one
/// that comes before all others.
pub proof fn lemma_occupied(cells: Cells)
    requires
        is_solid(cells),
    ensures
        forall|p: Position| #[trigger] occupied(cells).contains(p) <==> covers(cells, p),
        forall|i: int, j: int|
            0 <= i < j < occupied(cells).len() ==> precedes(
                #[trigger] occupied(cells)[i],
                #[trigger] occupied(cells)[j],
            ),
        occupied(cells).no_duplicates(),
{
    let w = width(cells) as int;
    let n = cells.len() * w;
    assert(n >= 0) by (nonlinear_arith)
        requires
            n == cells.len() * w,
            w >= 0,
    ;
    lemma_occupied_among(cells, n);
    assert(indexed(cells).take(n) =~= indexed(cells));
    assert(occupied_among(cells, n) == occupied(cells));
    assert forall|p: Position| covers(cells, p) implies p.x * w + p.y < n by {
        assert(p.x * w + p.y < cells.len() * w) by (nonlinear_arith)
            requires
                p.x + 1 <= cells.len(),
                p.y < w,
        ;
    }
}

/// A grid that holds `true` somewhere covers at least one cell.
pub proof fn lemma_occupied_somewhere(cells: Cells, r: int, c: int)
    requires
        is_solid(cells),
        0 <= r < cells.len(),
        0 <= c < width(cells),
        cells[r][c],
    ensures
        occupied(cells).len() > 0,
{
    lemma_occupied(cells);
    assert(covers(cells, Position { x: r as usize, y: c as usize }));
    assert(occupied(cells).contains(Position { x: r as usize, y: c as usize }));
}

/// Transposing and then reversing each row is a quarter turn clockwise;
/// transposing and then reversing the order of the rows is a quarter turn
/// counterclockwise.
pub proof fn lemma_quarter_turns(cells: Cells)
    requires
        is_solid(cells),
    ensures
        mirrored(transposed(cells)) == turned_clockwise(cells),
        upside_down(transposed(cells)) == turned_counterclockwise(cells),
{
    assert(mirrored(transposed(cells)) =~~= turned_clockwise(cells));
    assert(upside_down(transposed(cells)) =~~= turned_counterclockwise(cells));
}

/// A quarter turn of a solid grid is solid, with rows and columns exchanged,
/// and covers a cell if the grid did.
pub proof fn lemma_turn_keeps_solid(cells: Cells)
    requires
        is_solid(cells),
    ensures
        is_solid(turned_clockwise(cells)),
        is_solid(turned_counterclockwise(cells)),
        turned_clockwise(cells).len() == width(cells),
        width(turned_clockwise(cells)) == cells.len(),
        turned_counterclockwise(cells).len() == width(cells),
        width(turned_counterclockwise(cells)) == cells.len(),
        occupied(cells).len() > 0 ==> occupied(turned_clockwise(cells)).len() > 0 && occupied(
            turned_counterclockwise(cells),
        ).len() > 0,
{
    let cw = turned_clockwise(cells);
    let ccw = turned_counterclockwise(cells);
    assert(cw[0].len() == cells.len());
    assert(ccw[0].len() == cells.len());
    if occupied(cells).len() > 0 {
        lemma_occupied(cells);
        let p = occupied(cells)[0];
        assert(occupied(cells).contains(p));
        assert(covers(cells, p));
        assert(cw[p.y as int][cells.len() - 1 - p.x]);
        lemma_occupied_somewhere(cw, p.y as int, cells.len() - 1 - p.x);
        assert(ccw[width(cells) - 1 - p.y][p.x as int]);
        lemma_occupied_somewhere(ccw, width(cells) - 1 - p.y, p.x as int);
    }
}

/// Two quarter turns in the same direction are a half turn.
proof fn lemma_half_turn(cells: Cells)
    requires
        is_solid(cells),
    ensures
        turned_clockwise(turned_clockwise(cells)) == turned_around(cells),
        turned_counterclockwise(turned_counterclockwise(cells)) == turned_around(cells),
        is_solid(turned_around(cells)),
        turned_around(turned_around(cells)) == cells,
{
    lemma_turn_keeps_solid(cells);
    let half = turned_around(cells);
    assert(half[0].len() == width(cells));
    assert(turned_clockwise(turned_clockwise(cells)) =~~= half);
    assert(turned_counterclockwise(turned_counterclockwise(cells)) =~~= half);
    assert(turned_around(half) =~~= cells);
}

/// Four quarter turns in the same direction give back the grid, cell for
/// cell.
pub proof fn lemma_four_turns(cells: Cells)
    requires
        is_solid(cells),
    ensures
        turned_clockwise(turned_clockwise(turned_clockwise(turned_clockwise(cells)))) == cells,
        turned_counterclockwise(
            turned_counterclockwise(turned_counterclockwise(turned_counterclockwise(cells))),
        ) == cells,
{
    lemma_half_turn(cells);
    lemma_half_turn(turned_around(cells));
}

/// A quarter turn one way undoes a quarter turn the other way.
pub proof fn lemma_turn_back(cells: Cells)
    requires
        is_solid(cells),
    ensures
        turned_counterclockwise(turned_clockwise(cells)) == cells,
        turned_clockwise(turned_counterclockwise(cells)) == cells,
{
    lemma_turn_keeps_solid(cells);
    assert(turned_counterclockwise(turned_clockwise(cells)) =~~= cells);
    assert(turned_clockwise(turned_counterclockwise(cells)) =~~= cells);
}

impl Shape {
    /// `ndarray::arr2`: an array with one row per element of `rows`, holding
    /// the same booleans in the same places.
    #[verifier::external_body]
    pub(crate) fn from_rows<const N: usize>(rows: &[[bool; N]]) -> (shape: Shape)
        requires
            axes_fit(rows@.len(), N as nat),
        ensures
            shape_cells(shape) == Seq::new(rows@.len(), |r: int| rows@[r]@),
    {
        Shape { cells: ndarray::arr2(rows) }
    }

    /// `ArrayBase::swap_axes`: exchanging the two axes of an array with at
    /// least one row transposes it; exchanging an axis with itself changes
    /// nothing.
    #[verifier::external_body]
    pub(crate) fn swap_axes(&mut self, ax: usize, bx: usize)
        requires
            ax < 2,
            bx < 2,
        ensures
            ax == bx ==> shape_cells(*final(self)) == shape_cells(*old(self)),
            ax != bx && shape_cells(*old(self)).len() > 0 ==> shape_cells(*final(self))
                == transposed(shape_cells(*old(self))),
    {
        self.cells.swap_axes(ax, bx)
    }

    /// `ArrayBase::invert_axis`: inverting axis 0 puts the rows in opposite
    /// order, inverting axis 1 puts the elements of each row in opposite
    /// order.
    #[verifier::external_body]
    pub(crate) fn invert_axis(&mut self, axis: usize)
        requires
            axis < 2,
        ensures
            axis == 0 ==> shape_cells(*final(self)) == upside_down(shape_cells(*old(self))),
            axis == 1 ==> shape_cells(*final(self)) == mirrored(shape_cells(*old(self))),
    {
        self.cells.invert_axis(ndarray::Axis(axis))
    }

    /// `ArrayBase::indexed_iter`: every element with its index, the last
    /// index varying fastest.
    #[verifier::external_body]
    pub(crate) fn indexed_cells(&self) -> (items: Vec<((usize, usize), bool)>)
        ensures
            items@ == indexed(shape_cells(*self)),
    {
        self.cells.indexed_iter().map(|(at, cell)| (at, *cell)).collect()
    }
}

impl Clone for Shape {
    /// `ArrayBase::clone`: an array with the same contents.
    #[verifier::external_body]
    fn clone(&self) -> (copy: Self)
        ensures
            shape_cells(copy) == shape_cells(*self),
    {
        Shape { cells: self.cells.clone() }
    }
}

} // verus!
