//! Pieces: a footprint, a side, a rotation mark, and a lifecycle of two
//! states.  A released piece floats and can be turned; a placed piece is
//! anchored at a board position.
use crate::position::Position;
use crate::shape::{
    covered, indexed, is_solid, lemma_four_turns, lemma_index_joins, lemma_index_splits,
    lemma_occupied_somewhere, lemma_quarter_turns, lemma_row_of_index, lemma_turn_back,
    lemma_turn_keeps_solid, occupied, turned_clockwise, turned_counterclockwise, width, Cells,
    Shape,
};
use crate::Team;
use std::marker::PhantomData;
use vstd::prelude::*;

verus! {

/// Lifecycle state of a piece, as a type.
pub trait PieceState {

}

/// State of a piece that stands on a board.
#[derive(Clone, Copy, PartialEq, Eq, Hash, Debug)]
pub struct Placed;

impl PieceState for Placed {

}

/// State of a piece that stands on no board.
#[derive(Clone, Copy, PartialEq, Eq, Hash, Debug)]
pub struct Released;

impl PieceState for Released {

}

/// How far a piece has been turned from the orientation it was made in.
#[derive(Clone, Copy, PartialEq, Eq, Structural, Hash, Debug)]
pub enum Rotation {
    UP,
    DOWN,
    LEFT,
    RIGHT,
}

impl Rotation {
    /// The mark after a quarter turn clockwise: UP, RIGHT, DOWN, LEFT, UP.
    pub open spec fn clockwise(self) -> Rotation {
        match self {
            Rotation::UP => Rotation::RIGHT,
            Rotation::RIGHT => Rotation::DOWN,
            Rotation::DOWN => Rotation::LEFT,
            Rotation::LEFT => Rotation::UP,
        }
    }

    /// The mark after a quarter turn counterclockwise: UP, LEFT, DOWN,
    /// RIGHT, UP.
    pub open spec fn counterclockwise(self) -> Rotation {
        match self {
            Rotation::UP => Rotation::LEFT,
            Rotation::LEFT => Rotation::DOWN,
            Rotation::DOWN => Rotation::RIGHT,
            Rotation::RIGHT => Rotation::UP,
        }
    }

    pub fn rotated_clockwise(self) -> (turned: Self)
        ensures
            turned == self.clockwise(),
    {
        match self {
            Self::UP => Self::RIGHT,
            Self::RIGHT => Self::DOWN,
            Self::DOWN => Self::LEFT,
            Self::LEFT => Self::UP,
        }
    }

    pub fn rotated_counterclockwise(self) -> (turned: Self)
        ensures
            turned == self.counterclockwise(),
    {
        match self {
            Self::UP => Self::LEFT,
            Self::LEFT => Self::DOWN,
            Self::DOWN => Self::RIGHT,
            Self::RIGHT => Self::UP,
        }
    }
}

/// What a piece is, in either state: its side, its footprint as rows of
/// booleans, its rotation mark and the position it was placed at (the origin
/// while it is released).
#[verifier::ext_equal]
pub struct PieceView {
    pub team: Team,
    pub shape: Cells,
    pub rotation: Rotation,
    pub position: Position,
}

impl PieceView {
    /// A piece as the constructors make it: not turned, at the origin.
    pub open spec fn fresh(team: Team, shape: Cells) -> PieceView {
        PieceView { team, shape, rotation: Rotation::UP, position: Position { x: 0, y: 0 } }
    }

    /// The footprint is a rectangle with at least one row and one column, and
    /// covers at least one cell.
    pub open spec fn well_formed(self) -> bool {
        is_solid(self.shape) && occupied(self.shape).len() > 0
    }

    /// The covered cells relative to the footprint's top left corner, row
    /// after row.
    pub open spec fn cells(self) -> Seq<Position> {
        occupied(self.shape)
    }

    /// Every covered cell of the footprint put at `position` has `usize`
    /// coordinates.
    pub open spec fn fits_at(self, position: Position) -> bool {
        forall|k: int|
            0 <= k < self.cells().len() ==> position.x + (#[trigger] self.cells()[k]).x
                <= usize::MAX && position.y + self.cells()[k].y <= usize::MAX
    }

    /// The covered cells on the board: `position + cell` for each covered
    /// cell, in the same order.
    pub open spec fn footprint(self) -> Seq<Position> {
        self.cells().map_values(|cell: Position| self.position.plus(cell))
    }

    /// The first covered cell on the board: the key under which a board
    /// registers the piece.
    pub open spec fn anchor(self) -> Position {
        self.footprint()[0]
    }

    pub open spec fn turned_clockwise(self) -> PieceView {
        PieceView {
            shape: turned_clockwise(self.shape),
            rotation: self.rotation.clockwise(),
            ..self
        }
    }

    pub open spec fn turned_counterclockwise(self) -> PieceView {
        PieceView {
            shape: turned_counterclockwise(self.shape),
            rotation: self.rotation.counterclockwise(),
            ..self
        }
    }

    /// The same piece standing at `position`.
    pub open spec fn placed_at(self, position: Position) -> PieceView {
        PieceView { position, ..self }
    }

    /// The same piece taken off the board.
    pub open spec fn released(self) -> PieceView {
        PieceView { position: Position { x: 0, y: 0 }, ..self }
    }
}

/// Footprints of the piece kinds, as made.
pub open spec fn tavern_cells() -> Cells {
    seq![seq![true]]
}

pub open spec fn stable_cells() -> Cells {
    seq![seq![true], seq![true]]
}

pub open spec fn inn_cells() -> Cells {
    seq![seq![true, true], seq![true, false]]
}

pub open spec fn bridge_cells() -> Cells {
    seq![seq![true], seq![true], seq![true]]
}

pub open spec fn square_cells() -> Cells {
    seq![seq![true, true], seq![true, true]]
}

pub open spec fn manor_cells() -> Cells {
    seq![seq![true, true, true], seq![false, true, false]]
}

/// The abbey of White; that of Black is its mirror image.
pub open spec fn abbey_cells(team: Team) -> Cells {
    if team == Team::White {
        seq![seq![false, true, true], seq![true, true, false]]
    } else {
        seq![seq![true, true, false], seq![false, true, true]]
    }
}

/// The academy of White; that of Black is its mirror image.
pub open spec fn academy_cells(team: Team) -> Cells {
    if team == Team::White {
        seq![seq![false, false, true], seq![true, true, true], seq![false, true, false]]
    } else {
        seq![seq![true, false, false], seq![true, true, true], seq![false, true, false]]
    }
}

pub open spec fn infirmary_cells() -> Cells {
    seq![seq![false, true, false], seq![true, true, true], seq![false, true, false]]
}

pub open spec fn castle_cells() -> Cells {
    seq![seq![true, true, true], seq![true, false, true]]
}

pub open spec fn tower_cells() -> Cells {
    seq![seq![false, true, true], seq![true, true, false], seq![true, false, false]]
}

pub open spec fn cathedral_cells() -> Cells {
    seq![
        seq![false, true, false],
        seq![true, true, true],
        seq![false, true, false],
        seq![false, true, false],
    ]
}

/// A piece in lifecycle state `S`.
#[derive(PartialEq, Eq, Hash, Debug)]
pub struct Piece<S: PieceState> {
    team: Team,
    layout: Shape,
    position: Position,
    rotation: Rotation,
    _state: PhantomData<S>,
}

impl<S: PieceState> View for Piece<S> {
    type V = PieceView;

    closed spec fn view(&self) -> PieceView {
        PieceView {
            team: self.team,
            shape: self.layout@,
            rotation: self.rotation,
            position: self.position,
        }
    }
}

impl<S: PieceState> Clone for Piece<S> {
    fn clone(&self) -> (copy: Self)
        ensures
            copy@ == self@,
    {
        Piece {
            team: self.team,
            layout: self.layout.clone(),
            position: self.position,
            rotation: self.rotation,
            _state: PhantomData,
        }
    }
}

impl<S: PieceState> Piece<S> {
    pub fn team(&self) -> (team: Team)
        ensures
            team == self@.team,
    {
        self.team
    }

    /// The rotation mark.
    pub fn rotation(&self) -> (rotation: Rotation)
        ensures
            rotation == self@.rotation,
    {
        self.rotation
    }

    /// The footprint as rows of booleans.
    pub fn shape_rows(&self) -> (rows: Vec<Vec<bool>>)
        requires
            self@.well_formed(),
        ensures
            rows@.len() == self@.shape.len(),
            forall|r: int| 0 <= r < rows@.len() ==> (#[trigger] rows@[r])@ == self@.shape[r],
    {
        let items = self.layout.indexed_cells();
        let ghost cells = self@.shape;
        let ghost w = width(cells) as int;
        let n = items.len();
        proof {
            lemma_index_splits(cells.len() - 1, w - 1, w);
            assert((cells.len() - 1) * w + (w - 1) == cells.len() * w - 1) by (nonlinear_arith);
        }
        let cols = items[n - 1].0.1 + 1;
        let mut rows: Vec<Vec<bool>> = Vec::new();
        let mut row: Vec<bool> = Vec::new();
        let mut i: usize = 0;
        while i < n
            invariant
                is_solid(cells),
                w == width(cells),
                cols == w,
                items@ == indexed(cells),
                n == items@.len(),
                i <= n,
                rows@.len() == i as int / w,
                row@.len() == i as int % w,
                forall|r: int| 0 <= r < rows@.len() ==> (#[trigger] rows@[r])@ == cells[r],
                forall|c: int| 0 <= c < row@.len() ==> row@[c] == cells[i as int / w][c],
            decreases n - i,
        {
            let ghost r = i as int / w;
            let ghost c = i as int % w;
            proof {
                lemma_index_joins(i as int, w);
                lemma_row_of_index(i as int, cells.len() as int, w);
            }
            let item = items[i];
            row.push(item.1);
            if item.0.1 + 1 == cols {
                proof {
                    lemma_index_splits(r + 1, 0, w);
                    assert((r + 1) * w + 0 == r * w + c + 1) by (nonlinear_arith)
                        requires
                            c + 1 == w,
                    ;
                    assert(row@ =~= cells[r]);
                }
                rows.push(row);
                row = Vec::new();
            } else {
                proof {
                    lemma_index_splits(r, c + 1, w);
                }
            }
            i += 1;
        }
        proof {
            lemma_index_splits(cells.len() as int, 0, w);
        }
        rows
    }

    /// Returns the cells that this piece covers, relative to the top left
    /// corner of its footprint, row after row.
    pub fn occupied_coords_iter(&self) -> (cells: Vec<Position>)
        ensures
            cells@ == self@.cells(),
    {
        let items = self.layout.indexed_cells();
        let ghost pick = |item: ((usize, usize), bool)| covered(item);
        let mut cells: Vec<Position> = Vec::new();
        let mut i: usize = 0;
        while i < items.len()
            invariant
                i <= items.len(),
                pick == |item: ((usize, usize), bool)| covered(item),
                cells@ == items@.take(i as int).filter_map(pick),
            decreases items.len() - i,
        {
            let item = items[i];
            proof {
                items@.lemma_filter_map_take_succ(pick, i as int);
            }
            if item.1 {
                cells.push(Position { x: item.0.0, y: item.0.1 });
            }
            i += 1;
        }
        assert(items@.take(items.len() as int) =~= items@);
        cells
    }
}

impl Piece<Released> {
    /// A fresh piece of the given side with the given footprint.
    fn with_rows<const N: usize>(team: Team, rows: &[[bool; N]]) -> (piece: Self)
        requires
            0 < rows@.len() <= 4,
            0 < N <= 4,
            exists|r: int, c: int| 0 <= r < rows@.len() && 0 <= c < N && #[trigger] rows@[r]@[c],
        ensures
            piece@ == PieceView::fresh(team, Seq::new(rows@.len(), |r: int| rows@[r]@)),
            piece@.well_formed(),
    {
        assert(rows@.len() * (N as nat) <= 16) by (nonlinear_arith)
            requires
                rows@.len() <= 4,
                N <= 4,
        ;
        let layout = Shape::from_rows(rows);
        proof {
            let (r, c) = choose|r: int, c: int|
                0 <= r < rows@.len() && 0 <= c < N && #[trigger] rows@[r]@[c];
            assert(layout@[0].len() == N);
            lemma_occupied_somewhere(layout@, r, c);
        }
        Piece {
            team,
            layout,
            position: Position::default(),
            rotation: Rotation::UP,
            _state: PhantomData,
        }
    }

    /// Returns a piece with this layout:
    /// <pre>
    /// []
    /// </pre>
    pub fn new_tavern(team: Team) -> (piece: Self)
        requires
            team != Team::Neutral,
        ensures
            piece@ == PieceView::fresh(team, tavern_cells()),
            piece@.well_formed(),
    {
        let rows = [[true]];
        assert(rows@[0]@[0]);
        let piece = Self::with_rows(team, rows.as_slice());
        assert(piece@.shape =~~= tavern_cells());
        piece
    }

    /// Returns a piece with this layout:
    /// <pre>
    /// []
    /// []
    /// </pre>
    pub fn new_stable(team: Team) -> (piece: Self)
        requires
            team != Team::Neutral,
        ensures
            piece@ == PieceView::fresh(team, stable_cells()),
            piece@.well_formed(),
    {
        let rows = [[true], [true]];
        assert(rows@[0]@[0]);
        let piece = Self::with_rows(team, rows.as_slice());
        assert(piece@.shape =~~= stable_cells());
        piece
    }

    /// Returns a piece with this layout:
    /// <pre>
    /// [][]
    /// []
    /// </pre>
    pub fn new_inn(team: Team) -> (piece: Self)
        requires
            team != Team::Neutral,
        ensures
            piece@ == PieceView::fresh(team, inn_cells()),
            piece@.well_formed(),
    {
        let rows = [[true, true], [true, false]];
        assert(rows@[0]@[0]);
        let piece = Self::with_rows(team, rows.as_slice());
        assert(piece@.shape =~~= inn_cells());
        piece
    }

    /// Returns a piece with this layout:
    /// <pre>
    /// []
    /// []
    /// []
    /// </pre>
    pub fn new_bridge(team: Team) -> (piece: Self)
        requires
            team != Team::Neutral,
        ensures
            piece@ == PieceView::fresh(team, bridge_cells()),
            piece@.well_formed(),
    {
        let rows = [[true], [true], [true]];
        assert(rows@[0]@[0]);
        let piece = Self::with_rows(team, rows.as_slice());
        assert(piece@.shape =~~= bridge_cells());
        piece
    }

    /// Returns a piece with this layout:
    /// <pre>
    /// [][]
    /// [][]
    /// </pre>
    pub fn new_square(team: Team) -> (piece: Self)
        requires
            team != Team::Neutral,
        ensures
            piece@ == PieceView::fresh(team, square_cells()),
            piece@.well_formed(),
    {
        let rows = [[true, true], [true, true]];
        assert(rows@[0]@[0]);
        let piece = Self::with_rows(team, rows.as_slice());
        assert(piece@.shape =~~= square_cells());
        piece
    }

    /// Returns a piece with this layout:
    /// <pre>
    /// [][][]
    ///   []
    /// </pre>
    pub fn new_manor(team: Team) -> (piece: Self)
        requires
            team != Team::Neutral,
        ensures
            piece@ == PieceView::fresh(team, manor_cells()),
            piece@.well_formed(),
    {
        let rows = [[true, true, true], [false, true, false]];
        assert(rows@[0]@[0]);
        let piece = Self::with_rows(team, rows.as_slice());
        assert(piece@.shape =~~= manor_cells());
        piece
    }

    /// Returns a piece with this layout:
    /// <pre>
    /// white:  black:
    ///   [][]  [][]
    /// [][]      [][]
    /// </pre>
    pub fn new_abbey(team: Team) -> (piece: Self)
        requires
            team != Team::Neutral,
        ensures
            piece@ == PieceView::fresh(team, abbey_cells(team)),
            piece@.well_formed(),
    {
        let rows = match team {
            Team::White => [[false, true, true], [true, true, false]],
            _ => [[true, true, false], [false, true, true]],
        };
        assert(rows@[0]@[1]);
        let piece = Self::with_rows(team, rows.as_slice());
        assert(piece@.shape =~~= abbey_cells(team));
        piece
    }

    /// Returns a piece with this layout:
    /// <pre>
    /// white:  black:
    ///     []  []
    /// [][][]  [][][]
    ///   []      []
    /// </pre>
    pub fn new_academy(team: Team) -> (piece: Self)
        requires
            team != Team::Neutral,
        ensures
            piece@ == PieceView::fresh(team, academy_cells(team)),
            piece@.well_formed(),
    {
        let rows = match team {
            Team::White => [[false, false, true], [true, true, true], [false, true, false]],
            _ => [[true, false, false], [true, true, true], [false, true, false]],
        };
        assert(rows@[1]@[1]);
        let piece = Self::with_rows(team, rows.as_slice());
        assert(piece@.shape =~~= academy_cells(team));
        piece
    }

    /// Returns a piece with this layout:
    /// <pre>
    ///   []
    /// [][][]
    ///   []
    /// </pre>
    pub fn new_infirmary(team: Team) -> (piece: Self)
        requires
            team != Team::Neutral,
        ensures
            piece@ == PieceView::fresh(team, infirmary_cells()),
            piece@.well_formed(),
    {
        let rows = [[false, true, false], [true, true, true], [false, true, false]];
        assert(rows@[0]@[1]);
        let piece = Self::with_rows(team, rows.as_slice());
        assert(piece@.shape =~~= infirmary_cells());
        piece
    }

    /// Returns a piece with this layout:
    /// <pre>
    /// [][][]
    /// []  []
    /// </pre>
    pub fn new_castle(team: Team) -> (piece: Self)
        requires
            team != Team::Neutral,
        ensures
            piece@ == PieceView::fresh(team, castle_cells()),
            piece@.well_formed(),
    {
        let rows = [[true, true, true], [true, false, true]];
        assert(rows@[0]@[0]);
        let piece = Self::with_rows(team, rows.as_slice());
        assert(piece@.shape =~~= castle_cells());
        piece
    }

    /// Returns a piece with this layout:
    /// <pre>
    ///   [][]
    /// [][]
    /// []
    /// </pre>
    pub fn new_tower(team: Team) -> (piece: Self)
        requires
            team != Team::Neutral,
        ensures
            piece@ == PieceView::fresh(team, tower_cells()),
            piece@.well_formed(),
    {
        let rows = [[false, true, true], [true, true, false], [true, false, false]];
        assert(rows@[0]@[1]);
        let piece = Self::with_rows(team, rows.as_slice());
        assert(piece@.shape =~~= tower_cells());
        piece
    }

    /// Returns the piece of no side, with this layout:
    /// <pre>
    ///   []
    /// [][][]
    ///   []
    ///   []
    /// </pre>
    pub fn new_cathedral() -> (piece: Self)
        ensures
            piece@ == PieceView::fresh(Team::Neutral, cathedral_cells()),
            piece@.well_formed(),
    {
        let rows = [
            [false, true, false],
            [true, true, true],
            [false, true, false],
            [false, true, false],
        ];
        assert(rows@[0]@[1]);
        let piece = Self::with_rows(Team::Neutral, rows.as_slice());
        assert(piece@.shape =~~= cathedral_cells());
        piece
    }

    /// Rotates piece 90 degrees clockwise.
    pub fn rotate_clockwise(&mut self)
        requires
            old(self)@.well_formed(),
        ensures
            final(self)@ == old(self)@.turned_clockwise(),
            final(self)@.well_formed(),
    {
        proof {
            lemma_quarter_turns(self@.shape);
            lemma_turn_keeps_solid(self@.shape);
        }
        self.layout.swap_axes(0, 1);
        self.layout.invert_axis(1);
        self.rotation = self.rotation.rotated_clockwise();
    }

    /// Rotates piece 90 degrees counterclockwise.
    pub fn rotate_counterclockwise(&mut self)
        requires
            old(self)@.well_formed(),
        ensures
            final(self)@ == old(self)@.turned_counterclockwise(),
            final(self)@.well_formed(),
    {
        proof {
            lemma_quarter_turns(self@.shape);
            lemma_turn_keeps_solid(self@.shape);
        }
        self.layout.swap_axes(0, 1);
        self.layout.invert_axis(0);
        self.rotation = self.rotation.rotated_counterclockwise();
    }

    /// Emulates placing a piece down at given position.
    /// Changes its position and state to `Placed`.
    pub fn placed_at(self, position: Position) -> (placed: Piece<Placed>)
        ensures
            placed@ == self@.placed_at(position),
    {
        Piece {
            team: self.team,
            layout: self.layout,
            position,
            rotation: self.rotation,
            _state: PhantomData,
        }
    }
}

impl Piece<Placed> {
    /// The position this piece was placed at: where the top left corner of
    /// its footprint stands.
    pub fn position(&self) -> (position: Position)
        ensures
            position == self@.position,
    {
        self.position
    }

    /// Emulates picking a piece up. Changes its state to `Released`.
    pub fn released(self) -> (released: Piece<Released>)
        ensures
            released@ == self@.released(),
    {
        Piece {
            team: self.team,
            layout: self.layout,
            position: Position::default(),
            rotation: self.rotation,
            _state: PhantomData,
        }
    }

    /// Returns the board cells that this piece covers, row after row.
    pub fn occupied_positions_iter(&self) -> (cells: Vec<Position>)
        requires
            self@.well_formed(),
            self@.fits_at(self@.position),
        ensures
            cells@ == self@.footprint(),
    {
        let local = self.occupied_coords_iter();
        let ghost lift = |cell: Position| self@.position.plus(cell);
        let mut cells: Vec<Position> = Vec::new();
        let mut i: usize = 0;
        while i < local.len()
            invariant
                i <= local.len(),
                local@ == self@.cells(),
                self@.fits_at(self@.position),
                lift == |cell: Position| self@.position.plus(cell),
                cells@ == local@.take(i as int).map_values(lift),
            decreases local.len() - i,
        {
            let cell = local[i];
            assert(cell == self@.cells()[i as int]);
            cells.push(Position { x: self.position.x + cell.x, y: self.position.y + cell.y });
            assert(local@.take(i + 1).map_values(lift) =~= local@.take(i as int).map_values(
                lift,
            ).push(lift(cell)));
            i += 1;
        }
        assert(local@.take(local.len() as int) =~= local@);
        cells
    }

    /// The first board cell that this piece covers: the key under which a
    /// board registers it.
    pub fn anchor(&self) -> (anchor: Position)
        requires
            self@.well_formed(),
            self@.fits_at(self@.position),
        ensures
            anchor == self@.anchor(),
    {
        let cells = self.occupied_positions_iter();
        cells[0]
    }
}

/// Four quarter turns of a piece in the same direction give back the piece:
/// the same footprint cell for cell, and the same rotation mark.
pub proof fn lemma_four_turns_restore(piece: PieceView)
    requires
        piece.well_formed(),
    ensures
        piece.turned_clockwise().turned_clockwise().turned_clockwise().turned_clockwise()
            == piece,
        piece.turned_counterclockwise().turned_counterclockwise().turned_counterclockwise()
            .turned_counterclockwise() == piece,
{
    lemma_four_turns(piece.shape);
}

/// A quarter turn clockwise and a quarter turn counterclockwise undo each
/// other, in either order.
pub proof fn lemma_opposite_turns_cancel(piece: PieceView)
    requires
        piece.well_formed(),
    ensures
        piece.turned_clockwise().turned_counterclockwise() == piece,
        piece.turned_counterclockwise().turned_clockwise() == piece,
{
    lemma_turn_back(piece.shape);
}

} // verus!
