//! The board: a square grid of tiles and the registry of the pieces that
//! stand on it.  Placement is checked cell by cell; a piece is registered
//! under its anchor and taken off again by that key.
use crate::error::{BoardError, Rejected};
use crate::grid::{grid_tiles, TileGrid, Tiles};
use crate::piece::{Piece, PieceView, Placed, Released};
use crate::position::Position;
use crate::shape::axes_fit;
use crate::Team;
use vstd::prelude::*;

verus! {

/// A tile of the board: open ground credited to a side (or to nobody), or
/// ground under a building of a side.
#[derive(Clone, Copy, PartialEq, Eq, Structural, Debug)]
pub enum Tile {
    Empty(Team),
    Occupied(Team),
}

/// `v`, or `usize::MAX` where `v` is larger: a coordinate that no board
/// reaches.
pub open spec fn clipped(v: int) -> usize {
    if v > usize::MAX {
        usize::MAX
    } else {
        v as usize
    }
}

/// The board cell under `cell` of a footprint put at `position`.  A sum that
/// does not fit in `usize` is clipped.
pub open spec fn target(position: Position, cell: Position) -> Position {
    Position { x: clipped(position.x + cell.x), y: clipped(position.y + cell.y) }
}

/// The board cells under the covered cells of `piece` put at `position`, in
/// the order of the covered cells.
pub open spec fn targets(piece: PieceView, position: Position) -> Seq<Position> {
    piece.cells().map_values(|cell: Position| target(position, cell))
}

/// What a board is: its tiles as rows, and the placed pieces in the order of
/// their placement.
#[verifier::ext_equal]
pub struct BoardView {
    pub tiles: Tiles,
    pub pieces: Seq<PieceView>,
}

impl BoardView {
    /// A board of `size` by `size` unclaimed tiles without pieces.
    pub open spec fn empty(size: nat) -> BoardView {
        BoardView {
            tiles: Seq::new(
                size,
                |r: int| Seq::new(size, |c: int| Tile::Empty(Team::Neutral)),
            ),
            pieces: Seq::empty(),
        }
    }

    /// Number of rows, which is the number of columns.
    pub open spec fn size(self) -> nat {
        self.tiles.len()
    }

    /// The position lies on the board.
    pub open spec fn holds(self, p: Position) -> bool {
        p.x < self.tiles.len() && p.y < self.tiles[p.x as int].len()
    }

    /// The tile at a position on the board.
    pub open spec fn tile(self, p: Position) -> Tile {
        self.tiles[p.x as int][p.y as int]
    }

    /// Why a cell of a piece of side `team` cannot lie at `p`, if it cannot:
    /// `p` is off the board; else a building stands there; else the ground
    /// there is credited to the side that opposes `team`.
    pub open spec fn obstacle_at(self, team: Team, p: Position) -> Option<BoardError> {
        if !self.holds(p) {
            Some(BoardError::PieceOutOfBounds(p))
        } else {
            match self.tile(p) {
                Tile::Occupied(_) => Some(BoardError::PieceOnOccupiedTile(p)),
                Tile::Empty(owner) => if team.opposes(owner) {
                    Some(BoardError::PieceOnEnemyTile(p))
                } else {
                    None
                },
            }
        }
    }

    /// The obstacle at the first of `cells` that has one.
    pub open spec fn first_obstacle(self, team: Team, cells: Seq<Position>) -> Option<
        BoardError,
    >
        decreases cells.len(),
    {
        if cells.len() == 0 {
            None
        } else {
            match self.obstacle_at(team, cells[0]) {
                Some(error) => Some(error),
                None => self.first_obstacle(team, cells.drop_first()),
            }
        }
    }

    /// Why `piece` cannot be placed at `position`, if it cannot: the obstacle
    /// at the first of its cells, row after row, that has one.
    pub open spec fn obstacle(self, piece: PieceView, position: Position) -> Option<BoardError> {
        self.first_obstacle(piece.team, targets(piece, position))
    }

    /// The tiles with `tile` at each of `cells` and unchanged elsewhere.
    pub open spec fn stamped(self, cells: Seq<Position>, tile: Tile) -> Tiles {
        Seq::new(
            self.tiles.len(),
            |r: int|
                Seq::new(
                    self.tiles[r].len(),
                    |c: int|
                        if cells.contains(Position { x: r as usize, y: c as usize }) {
                            tile
                        } else {
                            self.tiles[r][c]
                        },
                ),
        )
    }

    /// The board after `piece` was placed at `position`: its cells are
    /// occupied by its side, and it is registered last.
    pub open spec fn place(self, piece: PieceView, position: Position) -> BoardView {
        BoardView {
            tiles: self.stamped(
                piece.placed_at(position).footprint(),
                Tile::Occupied(piece.team),
            ),
            pieces: self.pieces.push(piece.placed_at(position)),
        }
    }

    /// Index in the registry of the piece whose anchor is `anchor`.
    pub open spec fn index_of(self, anchor: Position) -> Option<int> {
        if exists|i: int| 0 <= i < self.pieces.len() && (#[trigger] self.pieces[i]).anchor() == anchor {
            Some(
                choose|i: int|
                    0 <= i < self.pieces.len() && (#[trigger] self.pieces[i]).anchor() == anchor,
            )
        } else {
            None
        }
    }

    /// The board after the piece at index `i` of the registry was taken off:
    /// its cells are unclaimed ground, and it is registered no more.
    pub open spec fn remove(self, i: int) -> BoardView {
        BoardView {
            tiles: self.stamped(self.pieces[i].footprint(), Tile::Empty(Team::Neutral)),
            pieces: self.pieces.remove(i),
        }
    }

    /// The board after the open ground at `p` was credited to `team`.
    pub open spec fn award(self, p: Position, team: Team) -> BoardView {
        BoardView { tiles: self.stamped(seq![p], Tile::Empty(team)), pieces: self.pieces }
    }

    /// Piece `i` of the registry covers `p`.
    pub open spec fn covered_by(self, i: int, p: Position) -> bool {
        0 <= i < self.pieces.len() && self.pieces[i].footprint().contains(p)
    }

    /// There are as many columns as rows, and no more than a `usize` counts.
    pub open spec fn is_square(self) -> bool {
        &&& self.tiles.len() <= usize::MAX
        &&& forall|r: int|
            0 <= r < self.tiles.len() ==> (#[trigger] self.tiles[r]).len() == self.tiles.len()
    }

    /// The grid is square; every registered piece is well formed and lies on
    /// the board, on tiles occupied by its side; no two pieces share a cell;
    /// and every occupied tile lies under a registered piece.
    pub open spec fn well_formed(self) -> bool {
        &&& self.is_square()
        &&& forall|i: int|
            0 <= i < self.pieces.len() ==> (#[trigger] self.pieces[i]).well_formed()
                && self.pieces[i].fits_at(self.pieces[i].position)
        &&& forall|i: int, p: Position| #[trigger]
            self.covered_by(i, p) ==> self.holds(p) && self.tile(p) == Tile::Occupied(
                self.pieces[i].team,
            )
        &&& forall|i: int, j: int, p: Position|
            #[trigger] self.covered_by(i, p) && #[trigger] self.covered_by(j, p) ==> i == j
        &&& forall|p: Position|
            self.holds(p) && #[trigger] self.tile(p) is Occupied ==> exists|i: int| #[trigger]
                self.covered_by(i, p)
    }
}

/// A board.
pub struct Board {
    tiles: TileGrid,
    pieces: Vec<Piece<Placed>>,
}

impl View for Board {
    type V = BoardView;

    closed spec fn view(&self) -> BoardView {
        BoardView {
            tiles: grid_tiles(self.tiles),
            pieces: self.pieces@.map_values(|piece: Piece<Placed>| piece@),
        }
    }
}

/// Leading cells without an obstacle do not decide which obstacle comes
/// first.
pub proof fn lemma_first_obstacle_skips(
    board: BoardView,
    team: Team,
    cells: Seq<Position>,
    k: int,
)
    requires
        0 <= k <= cells.len(),
        forall|j: int| 0 <= j < k ==> board.obstacle_at(team, #[trigger] cells[j]) is None,
    ensures
        board.first_obstacle(team, cells) == board.first_obstacle(team, cells.skip(k)),
    decreases k,
{
    if k == 0 {
        assert(cells.skip(0) =~= cells);
    } else {
        assert(board.obstacle_at(team, cells[0]) is None);
        let rest = cells.drop_first();
        assert forall|j: int| 0 <= j < k - 1 implies board.obstacle_at(
            team,
            #[trigger] rest[j],
        ) is None by {
            assert(rest[j] == cells[j + 1]);
        }
        lemma_first_obstacle_skips(board, team, rest, k - 1);
        assert(rest.skip(k - 1) =~= cells.skip(k));
    }
}

/// The first obstacle is the obstacle of some cell before which no cell has
/// one; there is none exactly when no cell has one.
pub proof fn lemma_first_obstacle(board: BoardView, team: Team, cells: Seq<Position>)
    ensures
        board.first_obstacle(team, cells) is None <==> forall|k: int|
            0 <= k < cells.len() ==> board.obstacle_at(team, #[trigger] cells[k]) is None,
        board.first_obstacle(team, cells) is Some ==> exists|k: int|
            0 <= k < cells.len() && board.obstacle_at(team, #[trigger] cells[k])
                == board.first_obstacle(team, cells) && forall|j: int|
                0 <= j < k ==> board.obstacle_at(team, #[trigger] cells[j]) is None,
    decreases cells.len(),
{
    if cells.len() > 0 {
        let rest = cells.drop_first();
        lemma_first_obstacle(board, team, rest);
        assert forall|k: int| 0 <= k < rest.len() implies rest[k] == cells[k + 1] by {}
        if board.obstacle_at(team, cells[0]) is None {
            if board.first_obstacle(team, rest) is Some {
                let k = choose|k: int|
                    0 <= k < rest.len() && board.obstacle_at(team, #[trigger] rest[k])
                        == board.first_obstacle(team, rest) && forall|j: int|
                        0 <= j < k ==> board.obstacle_at(team, #[trigger] rest[j]) is None;
                assert(cells[k + 1] == rest[k]);
                assert forall|j: int| 0 <= j < k + 1 implies board.obstacle_at(
                    team,
                    #[trigger] cells[j],
                ) is None by {
                    if j > 0 {
                        assert(cells[j] == rest[j - 1]);
                    }
                }
            } else {
                assert forall|k: int| 0 <= k < cells.len() implies board.obstacle_at(
                    team,
                    #[trigger] cells[k],
                ) is None by {
                    if k > 0 {
                        assert(cells[k] == rest[k - 1]);
                    }
                }
            }
        }
    }
}

/// Where nothing stands in the way of a placement, every cell of the piece
/// comes to lie on the board, on open ground that the other side does not
/// hold, and the cells on the board are the targets as they are.
pub proof fn lemma_free_placement(board: BoardView, piece: PieceView, position: Position)
    requires
        board.well_formed(),
        board.obstacle(piece, position) is None,
    ensures
        piece.fits_at(position),
        piece.placed_at(position).footprint() == targets(piece, position),
        forall|p: Position| #[trigger]
            targets(piece, position).contains(p) ==> board.holds(p) && board.tile(p) is Empty
                && !piece.team.opposes(board.tile(p)->Empty_0),
{
    let all = targets(piece, position);
    lemma_first_obstacle(board, piece.team, all);
    assert forall|k: int| 0 <= k < piece.cells().len() implies position.x + (
    #[trigger] piece.cells()[k]).x <= usize::MAX && position.y + piece.cells()[k].y
        <= usize::MAX by {
        assert(board.obstacle_at(piece.team, all[k]) is None);
    }
    assert(piece.placed_at(position).footprint() =~= all);
    assert forall|p: Position| #[trigger] all.contains(p) implies board.holds(p) && board.tile(
        p,
    ) is Empty && !piece.team.opposes(board.tile(p)->Empty_0) by {
        let k = choose|k: int| 0 <= k < all.len() && all[k] == p;
        assert(board.obstacle_at(piece.team, all[k]) is None);
    }
}

/// Placing a piece where nothing stands in its way keeps the board well
/// formed.
pub proof fn lemma_place_keeps_well_formed(
    board: BoardView,
    piece: PieceView,
    position: Position,
)
    requires
        board.well_formed(),
        piece.well_formed(),
        board.obstacle(piece, position) is None,
    ensures
        board.place(piece, position).well_formed(),
{
    lemma_free_placement(board, piece, position);
    let after = board.place(piece, position);
    let placed = piece.placed_at(position);
    let cells = placed.footprint();
    let n = board.pieces.len() as int;
    assert forall|p: Position| after.holds(p) == board.holds(p) by {}
    assert forall|p: Position| board.holds(p) implies after.tile(p) == (if cells.contains(p) {
        Tile::Occupied(piece.team)
    } else {
        board.tile(p)
    }) by {
        assert(Position { x: p.x as int as usize, y: p.y as int as usize } == p);
    }
    assert forall|i: int, p: Position| after.covered_by(i, p) implies (if i == n {
        cells.contains(p)
    } else {
        board.covered_by(i, p) && !cells.contains(p)
    }) by {
        if i != n {
            assert(after.pieces[i] == board.pieces[i]);
            assert(board.covered_by(i, p));
        }
    }
    assert forall|i: int| 0 <= i < after.pieces.len() implies (#[trigger] after.pieces[i])
        .well_formed() && after.pieces[i].fits_at(after.pieces[i].position) by {
        if i < n {
            assert(after.pieces[i] == board.pieces[i]);
        }
    }
    assert forall|i: int, p: Position| #[trigger] after.covered_by(i, p) implies after.holds(p)
        && after.tile(p) == Tile::Occupied(after.pieces[i].team) by {
        if i != n {
            assert(after.pieces[i] == board.pieces[i]);
        }
    }
    assert forall|p: Position| after.holds(p) && #[trigger] after.tile(p) is Occupied implies exists|
        i: int,
    | #[trigger] after.covered_by(i, p) by {
        if cells.contains(p) {
            assert(after.covered_by(n, p));
        } else {
            assert(board.tile(p) is Occupied);
            let i = choose|i: int| #[trigger] board.covered_by(i, p);
            assert(after.pieces[i] == board.pieces[i]);
            assert(after.covered_by(i, p));
        }
    }
}

/// Taking a registered piece off the board keeps the board well formed.
pub proof fn lemma_remove_keeps_well_formed(board: BoardView, index: int)
    requires
        board.well_formed(),
        0 <= index < board.pieces.len(),
    ensures
        board.remove(index).well_formed(),
{
    let after = board.remove(index);
    let cells = board.pieces[index].footprint();
    let old_index = |i: int|
        if i < index {
            i
        } else {
            i + 1
        };
    assert forall|p: Position| after.holds(p) == board.holds(p) by {}
    assert forall|p: Position| board.holds(p) implies after.tile(p) == (if cells.contains(p) {
        Tile::Empty(Team::Neutral)
    } else {
        board.tile(p)
    }) by {
        assert(Position { x: p.x as int as usize, y: p.y as int as usize } == p);
    }
    assert forall|i: int| 0 <= i < after.pieces.len() implies #[trigger] after.pieces[i]
        == board.pieces[old_index(i)] by {}
    assert forall|i: int, p: Position| after.covered_by(i, p) implies board.covered_by(
        old_index(i),
        p,
    ) && !cells.contains(p) by {
        assert(after.pieces[i] == board.pieces[old_index(i)]);
        assert(board.covered_by(old_index(i), p));
        if cells.contains(p) {
            assert(board.covered_by(index, p));
        }
    }
    assert forall|i: int, j: int, p: Position| #[trigger]
        after.covered_by(i, p) && #[trigger] after.covered_by(j, p) implies i == j by {
        assert(board.covered_by(old_index(i), p));
        assert(board.covered_by(old_index(j), p));
    }
    assert forall|p: Position| after.holds(p) && #[trigger] after.tile(p) is Occupied implies exists|
        i: int,
    | #[trigger] after.covered_by(i, p) by {
        assert(!cells.contains(p));
        assert(board.tile(p) is Occupied);
        let j = choose|j: int| #[trigger] board.covered_by(j, p);
        assert(j != index);
        let i = if j < index {
            j
        } else {
            j - 1
        };
        assert(after.pieces[i] == board.pieces[j]);
        assert(after.covered_by(i, p));
    }
}

/// Crediting open ground to a side keeps the board well formed.
pub proof fn lemma_award_keeps_well_formed(board: BoardView, p: Position, team: Team)
    requires
        board.well_formed(),
        board.holds(p),
        board.tile(p) is Empty,
    ensures
        board.award(p, team).well_formed(),
{
    let after = board.award(p, team);
    assert forall|q: Position| after.holds(q) == board.holds(q) by {}
    assert forall|q: Position| board.holds(q) implies after.tile(q) == (if q == p {
        Tile::Empty(team)
    } else {
        board.tile(q)
    }) by {
        assert(Position { x: q.x as int as usize, y: q.y as int as usize } == q);
        assert(seq![p].contains(q) <==> q == p) by {
            if q == p {
                assert(seq![p][0] == q);
            }
        }
    }
    assert forall|i: int, q: Position| after.covered_by(i, q) == board.covered_by(i, q) by {}
    assert forall|q: Position| after.holds(q) && #[trigger] after.tile(q) is Occupied implies exists|
        i: int,
    | #[trigger] after.covered_by(i, q) by {
        assert(board.tile(q) is Occupied);
        let i = choose|i: int| #[trigger] board.covered_by(i, q);
        assert(after.covered_by(i, q));
    }
}

/// On a well-formed board no two registered pieces have the same anchor, so
/// an anchor is the key of at most one piece.
pub proof fn lemma_anchor_is_key(board: BoardView, i: int)
    requires
        board.well_formed(),
        0 <= i < board.pieces.len(),
    ensures
        board.index_of(board.pieces[i].anchor()) == Some(i),
        board.covered_by(i, board.pieces[i].anchor()),
{
    let anchor = board.pieces[i].anchor();
    assert(board.pieces[i].well_formed());
    assert(board.pieces[i].footprint()[0] == anchor);
    assert(board.covered_by(i, anchor));
    let j = choose|j: int|
        0 <= j < board.pieces.len() && (#[trigger] board.pieces[j]).anchor() == anchor;
    assert(board.pieces[j].well_formed());
    assert(board.pieces[j].footprint()[0] == anchor);
    assert(board.covered_by(j, anchor));
}

/// A piece that was placed is registered under its anchor, and removing it
/// by that key leaves the registry as it was before the placement and the
/// grid as it was but for the ground under the piece, which is credited to
/// nobody.
pub proof fn lemma_place_then_remove(board: BoardView, piece: PieceView, position: Position)
    requires
        board.well_formed(),
        piece.well_formed(),
        board.obstacle(piece, position) is None,
    ensures
        board.place(piece, position).index_of(piece.placed_at(position).anchor()) == Some(
            board.pieces.len() as int,
        ),
        board.place(piece, position).remove(board.pieces.len() as int).pieces == board.pieces,
        board.place(piece, position).remove(board.pieces.len() as int).tiles == board.stamped(
            targets(piece, position),
            Tile::Empty(Team::Neutral),
        ),
        piece.placed_at(position).released() == piece.released(),
{
    let n = board.pieces.len() as int;
    let after = board.place(piece, position);
    lemma_free_placement(board, piece, position);
    lemma_place_keeps_well_formed(board, piece, position);
    lemma_anchor_is_key(after, n);
    assert(after.remove(n).pieces =~= board.pieces);
    assert(after.remove(n).tiles =~~= board.stamped(
        targets(piece, position),
        Tile::Empty(Team::Neutral),
    ));
}

/// Placing a piece on ground credited to nobody and then removing it by its
/// anchor gives back the tile grid exactly as it was before the placement.
pub proof fn lemma_remove_undoes_place(board: BoardView, piece: PieceView, position: Position)
    requires
        board.well_formed(),
        piece.well_formed(),
        board.obstacle(piece, position) is None,
        forall|p: Position| #[trigger]
            targets(piece, position).contains(p) ==> board.tile(p) == Tile::Empty(Team::Neutral),
    ensures
        board.place(piece, position).index_of(piece.placed_at(position).anchor()) == Some(
            board.pieces.len() as int,
        ),
        board.place(piece, position).remove(board.pieces.len() as int) == board,
{
    let n = board.pieces.len() as int;
    lemma_place_then_remove(board, piece, position);
    lemma_free_placement(board, piece, position);
    let cleared = board.stamped(targets(piece, position), Tile::Empty(Team::Neutral));
    assert forall|r: int, c: int|
        0 <= r < board.tiles.len() && 0 <= c < board.tiles[r].len() implies cleared[r][c]
        == board.tiles[r][c] by {
        let p = Position { x: r as usize, y: c as usize };
        if targets(piece, position).contains(p) {
            assert(board.tile(p) == Tile::Empty(Team::Neutral));
        }
    }
    assert(cleared =~~= board.tiles);
    assert(board.place(piece, position).remove(n) =~~= board);
}

/// On a board without pieces and without credited ground, a piece can be
/// placed exactly where each of its cells lies within the board; anywhere
/// else the placement fails as out of bounds, at a cell that lies outside.
pub proof fn lemma_bounds_decide_on_empty_board(size: nat, piece: PieceView, position: Position)
    requires
        size <= usize::MAX,
    ensures
        BoardView::empty(size).obstacle(piece, position) is None <==> forall|k: int|
            0 <= k < piece.cells().len() ==> position.x + (#[trigger] piece.cells()[k]).x < size
                && position.y + piece.cells()[k].y < size,
        BoardView::empty(size).obstacle(piece, position) matches Some(error) ==> error
            matches BoardError::PieceOutOfBounds(p) && targets(piece, position).contains(p) && !(
        p.x < size && p.y < size),
{
    let board = BoardView::empty(size);
    let all = targets(piece, position);
    lemma_first_obstacle(board, piece.team, all);
    assert forall|k: int| 0 <= k < all.len() implies (board.obstacle_at(
        piece.team,
        #[trigger] all[k],
    ) is None <==> position.x + piece.cells()[k].x < size && position.y + piece.cells()[k].y
        < size) && (board.obstacle_at(piece.team, all[k]) matches Some(error) ==> error
        == BoardError::PieceOutOfBounds(all[k]) && !(all[k].x < size && all[k].y < size)) by {
        let p = all[k];
        assert(p == target(position, piece.cells()[k]));
        if board.holds(p) {
            assert(board.tile(p) == Tile::Empty(Team::Neutral));
        }
    }
    if board.obstacle(piece, position) is None {
        assert forall|k: int| 0 <= k < piece.cells().len() implies position.x + (
        #[trigger] piece.cells()[k]).x < size && position.y + piece.cells()[k].y < size by {
            assert(board.obstacle_at(piece.team, all[k]) is None);
        }
    } else {
        let k = choose|k: int|
            0 <= k < all.len() && board.obstacle_at(piece.team, #[trigger] all[k])
                == board.first_obstacle(piece.team, all) && forall|j: int|
                0 <= j < k ==> board.obstacle_at(piece.team, #[trigger] all[j]) is None;
        assert(all.contains(all[k]));
        assert(!(position.x + piece.cells()[k].x < size && position.y + piece.cells()[k].y
            < size));
    }
}

/// After a piece was placed, no piece can be placed so that it shares a cell
/// with it.  The reason given is an occupied tile, provided that every cell
/// of the second piece lies on the board and none on ground credited to the
/// side that opposes it; otherwise such a cell may come first and give its
/// own reason.
pub proof fn lemma_overlap_is_refused(
    board: BoardView,
    first: PieceView,
    at: Position,
    second: PieceView,
    position: Position,
    shared: Position,
)
    requires
        board.well_formed(),
        first.well_formed(),
        board.obstacle(first, at) is None,
        targets(first, at).contains(shared),
        targets(second, position).contains(shared),
    ensures
        board.place(first, at).obstacle(second, position) is Some,
        (forall|p: Position| #[trigger]
            targets(second, position).contains(p) ==> board.place(first, at).holds(p) && !(
            board.place(first, at).tile(p) matches Tile::Empty(owner) && second.team.opposes(
                owner,
            ))) ==> board.place(first, at).obstacle(second, position) matches Some(
            BoardError::PieceOnOccupiedTile(_),
        ),
{
    let after = board.place(first, at);
    let all = targets(second, position);
    lemma_free_placement(board, first, at);
    lemma_place_keeps_well_formed(board, first, at);
    lemma_first_obstacle(after, second.team, all);
    assert(after.covered_by(board.pieces.len() as int, shared));
    let s = choose|s: int| 0 <= s < all.len() && all[s] == shared;
    assert(after.obstacle_at(second.team, all[s]) is Some);
    if forall|p: Position| #[trigger]
        all.contains(p) ==> after.holds(p) && !(after.tile(p) matches Tile::Empty(owner)
            && second.team.opposes(owner)) {
        let k = choose|k: int|
            0 <= k < all.len() && after.obstacle_at(second.team, #[trigger] all[k])
                == after.first_obstacle(second.team, all) && forall|j: int|
                0 <= j < k ==> after.obstacle_at(second.team, #[trigger] all[j]) is None;
        assert(all.contains(all[k]));
    }
}

/// Open ground credited to a side refuses every piece of the opposing side
/// that would cover it, and no other piece: where the other cells of the
/// piece are free, a piece of the opposing side is refused for that ground,
/// and a piece of the same side or of no side can be placed.
pub proof fn lemma_credited_ground_excludes(
    board: BoardView,
    ground: Position,
    owner: Team,
    piece: PieceView,
    position: Position,
)
    requires
        board.well_formed(),
        board.holds(ground),
        board.tile(ground) is Empty,
        targets(piece, position).contains(ground),
    ensures
        piece.team.opposes(owner) ==> board.award(ground, owner).obstacle(piece, position)
            is Some,
        (forall|p: Position| #[trigger]
            targets(piece, position).contains(p) && p != ground ==> board.obstacle_at(
                piece.team,
                p,
            ) is None) ==> board.award(ground, owner).obstacle(piece, position) == (
        if piece.team.opposes(owner) {
            Some(BoardError::PieceOnEnemyTile(ground))
        } else {
            None
        }),
{
    let after = board.award(ground, owner);
    let all = targets(piece, position);
    lemma_first_obstacle(after, piece.team, all);
    assert forall|q: Position| after.holds(q) == board.holds(q) by {}
    assert forall|q: Position| board.holds(q) implies after.tile(q) == (if q == ground {
        Tile::Empty(owner)
    } else {
        board.tile(q)
    }) by {
        assert(Position { x: q.x as int as usize, y: q.y as int as usize } == q);
        assert(seq![ground].contains(q) <==> q == ground) by {
            if q == ground {
                assert(seq![ground][0] == q);
            }
        }
    }
    let g = choose|g: int| 0 <= g < all.len() && all[g] == ground;
    assert(after.obstacle_at(piece.team, all[g]) == (if piece.team.opposes(owner) {
        Some(BoardError::PieceOnEnemyTile(ground))
    } else {
        None
    }));
    if forall|p: Position| #[trigger]
        all.contains(p) && p != ground ==> board.obstacle_at(piece.team, p) is None {
        assert forall|k: int| 0 <= k < all.len() && all[k] != ground implies after.obstacle_at(
            piece.team,
            #[trigger] all[k],
        ) is None by {
            assert(all.contains(all[k]));
            assert(board.obstacle_at(piece.team, all[k]) is None);
        }
        if after.obstacle(piece, position) is Some {
            let k = choose|k: int|
                0 <= k < all.len() && after.obstacle_at(piece.team, #[trigger] all[k])
                    == after.first_obstacle(piece.team, all) && forall|j: int|
                    0 <= j < k ==> after.obstacle_at(piece.team, #[trigger] all[j]) is None;
            assert(all[k] == ground);
        }
    }
}

impl Board {
    /// A board of `size` by `size` unclaimed tiles.
    pub fn with_size(size: usize) -> (board: Self)
        requires
            axes_fit(size as nat, size as nat),
        ensures
            board@ == BoardView::empty(size as nat),
            board@.well_formed(),
    {
        let board = Self {
            tiles: TileGrid::filled(size, size, Tile::Empty(Team::Neutral)),
            pieces: Vec::new(),
        };
        assert(board@.pieces =~= Seq::empty());
        board
    }

    /// Returns board's size as position.
    pub fn size(&self) -> (size: Position)
        requires
            self@.well_formed(),
        ensures
            size.x == self@.size(),
            size.y == self@.size(),
    {
        let dim = self.tiles.dim();
        Position { x: dim.0, y: dim.0 }
    }

    /// The tile at `position`, or `None` off the board.
    pub fn tile(&self, position: Position) -> (tile: Option<Tile>)
        ensures
            tile == (if self@.holds(position) {
                Some(self@.tile(position))
            } else {
                None
            }),
    {
        self.tiles.get(position.x, position.y)
    }

    /// Checks if piece can be placed on board at given position. Returns possible
    /// error that can occur during placement: that of the first cell of the
    /// piece, row after row, that cannot lie where it would.
    pub fn can_place_piece(&self, piece: &Piece<Released>, position: Position) -> (verdict: Result<
        (),
        BoardError,
    >)
        ensures
            verdict == (match self@.obstacle(piece@, position) {
                Some(error) => Err(error),
                None => Ok(()),
            }),
    {
        let cells = piece.occupied_coords_iter();
        let team = piece.team();
        let ghost all = targets(piece@, position);
        let mut i: usize = 0;
        while i < cells.len()
            invariant
                i <= cells.len(),
                cells@ == piece@.cells(),
                team == piece@.team,
                all == targets(piece@, position),
                forall|j: int| 0 <= j < i ==> self@.obstacle_at(team, #[trigger] all[j]) is None,
            decreases cells.len() - i,
        {
            let p = reach(position, cells[i]);
            assert(p == all[i as int]);
            let found = match self.tiles.get(p.x, p.y) {
                None => Some(BoardError::PieceOutOfBounds(p)),
                Some(Tile::Occupied(_)) => Some(BoardError::PieceOnOccupiedTile(p)),
                Some(Tile::Empty(owner)) => if team.is_opposing_team(&owner) {
                    Some(BoardError::PieceOnEnemyTile(p))
                } else {
                    None
                },
            };
            assert(found == self@.obstacle_at(team, p));
            if let Some(error) = found {
                proof {
                    lemma_first_obstacle_skips(self@, team, all, i as int);
                    assert(all.skip(i as int)[0] == p);
                }
                return Err(error);
            }
            i += 1;
        }
        proof {
            lemma_first_obstacle_skips(self@, team, all, all.len() as int);
        }
        Ok(())
    }

    /// Writes `tile` at each of `cells`.
    fn stamp(&mut self, cells: &Vec<Position>, tile: Tile)
        requires
            old(self)@.is_square(),
            forall|k: int| 0 <= k < cells@.len() ==> old(self)@.holds(#[trigger] cells@[k]),
        ensures
            final(self)@.tiles == old(self)@.stamped(cells@, tile),
            final(self)@.pieces == old(self)@.pieces,
    {
        let ghost before = self@;
        let mut i: usize = 0;
        assert(cells@.take(0) =~= Seq::empty());
        assert(self@.tiles =~~= before.stamped(cells@.take(0), tile));
        while i < cells.len()
            invariant
                i <= cells.len(),
                before.is_square(),
                forall|k: int| 0 <= k < cells@.len() ==> before.holds(#[trigger] cells@[k]),
                self@.tiles == before.stamped(cells@.take(i as int), tile),
                self@.pieces == before.pieces,
            decreases cells.len() - i,
        {
            let p = cells[i];
            assert(before.holds(cells@[i as int]));
            self.tiles.set(p.x, p.y, tile);
            proof {
                let done = cells@.take(i as int);
                let next = cells@.take(i + 1);
                assert(next =~= done.push(p));
                assert forall|q: Position| next.contains(q) <==> done.contains(q) || q == p by {
                    if done.contains(q) {
                        let k = choose|k: int| 0 <= k < done.len() && done[k] == q;
                        assert(next[k] == q);
                    }
                    if q == p {
                        assert(next[i as int] == q);
                    }
                }
                assert(self@.tiles =~~= before.stamped(next, tile));
            }
            i += 1;
        }
        assert(cells@.take(cells.len() as int) =~= cells@);
    }

    /// Tries to put piece on board at given position.  Where nothing stands
    /// in its way, every tile under the piece becomes occupied by its side,
    /// the piece is registered under its anchor, and comes back placed.
    /// Otherwise the board stays as it is, and the piece comes back with the
    /// reason.
    pub fn try_place_piece(&mut self, piece: Piece<Released>, position: Position) -> (outcome:
        Result<Piece<Placed>, Rejected>)
        requires
            old(self)@.well_formed(),
            piece@.well_formed(),
        ensures
            match outcome {
                Ok(placed) => old(self)@.obstacle(piece@, position) is None && placed@
                    == piece@.placed_at(position) && final(self)@ == old(self)@.place(
                    piece@,
                    position,
                ),
                Err(rejected) => old(self)@.obstacle(piece@, position) == Some(rejected.error)
                    && rejected.piece == piece && final(self)@ == old(self)@,
            },
            final(self)@.well_formed(),
    {
        if let Err(error) = self.can_place_piece(&piece, position) {
            return Err(Rejected { error, piece });
        }
        proof {
            lemma_free_placement(self@, piece@, position);
            lemma_place_keeps_well_formed(self@, piece@, position);
        }
        let ghost before = self@;
        let placed = piece.placed_at(position);
        let cells = placed.occupied_positions_iter();
        assert forall|k: int| 0 <= k < cells@.len() implies self@.holds(#[trigger] cells@[k]) by {
            assert(targets(piece@, position).contains(cells@[k]));
        }
        self.stamp(&cells, Tile::Occupied(placed.team()));
        self.pieces.push(placed.clone());
        assert(self@.pieces =~= before.pieces.push(placed@));
        Ok(placed)
    }

    /// Tries to put piece on board at given position.  The caller has seen
    /// to it that nothing stands in its way.
    pub fn place_piece(&mut self, piece: Piece<Released>, position: Position) -> (placed: Piece<
        Placed,
    >)
        requires
            old(self)@.well_formed(),
            piece@.well_formed(),
            old(self)@.obstacle(piece@, position) is None,
        ensures
            placed@ == piece@.placed_at(position),
            final(self)@ == old(self)@.place(piece@, position),
            final(self)@.well_formed(),
    {
        match self.try_place_piece(piece, position) {
            Ok(placed) => placed,
            Err(_) => vstd::pervasive::unreached(),
        }
    }

    /// The index in the registry of the piece with the given anchor.
    fn find(&self, anchor: Position) -> (index: Option<usize>)
        requires
            self@.well_formed(),
        ensures
            self@.index_of(anchor) == (match index {
                Some(i) => Some(i as int),
                None => None,
            }),
            index matches Some(i) ==> i < self.pieces@.len(),
    {
        let mut i: usize = 0;
        while i < self.pieces.len()
            invariant
                i <= self.pieces.len(),
                self@.well_formed(),
                forall|j: int| 0 <= j < i ==> (#[trigger] self@.pieces[j]).anchor() != anchor,
            decreases self.pieces.len() - i,
        {
            assert(self@.pieces[i as int] == self.pieces@[i as int]@);
            if self.pieces[i].anchor() == anchor {
                proof {
                    lemma_anchor_is_key(self@, i as int);
                }
                return Some(i);
            }
            i += 1;
        }
        None
    }

    /// Tries to remove the piece registered under `position`, its anchor,
    /// from board.  Returns the removed piece in `Released` state and leaves
    /// unclaimed ground where it stood; where no piece has that anchor, the
    /// board stays as it is.
    pub fn try_remove_piece(&mut self, position: Position) -> (outcome: Result<
        Piece<Released>,
        BoardError,
    >)
        requires
            old(self)@.well_formed(),
        ensures
            match old(self)@.index_of(position) {
                Some(i) => outcome matches Ok(piece) && piece@ == old(self)@.pieces[i].released()
                    && final(self)@ == old(self)@.remove(i),
                None => outcome matches Err(error) && error == BoardError::PieceNotOnBoard
                    && final(self)@ == old(self)@,
            },
            final(self)@.well_formed(),
    {
        let i = match self.find(position) {
            Some(i) => i,
            None => {
                return Err(BoardError::PieceNotOnBoard);
            },
        };
        let ghost before = self@;
        proof {
            lemma_remove_keeps_well_formed(before, i as int);
            lemma_anchor_is_key(before, i as int);
        }
        let piece = self.pieces.remove(i);
        assert(piece@ == before.pieces[i as int]);
        assert(self@.pieces =~= before.pieces.remove(i as int));
        let cells = piece.occupied_positions_iter();
        assert forall|k: int| 0 <= k < cells@.len() implies self@.holds(#[trigger] cells@[k]) by {
            assert(before.covered_by(i as int, cells@[k]));
        }
        self.stamp(&cells, Tile::Empty(Team::Neutral));
        Ok(piece.released())
    }

    /// Removes the piece registered under `position` from board and returns
    /// it in `Released` state.  The caller has seen to it that there is one.
    pub fn remove_piece(&mut self, position: Position) -> (piece: Piece<Released>)
        requires
            old(self)@.well_formed(),
            old(self)@.index_of(position) is Some,
        ensures
            piece@ == old(self)@.pieces[old(self)@.index_of(position)->Some_0].released(),
            final(self)@ == old(self)@.remove(old(self)@.index_of(position)->Some_0),
            final(self)@.well_formed(),
    {
        match self.try_remove_piece(position) {
            Ok(piece) => piece,
            Err(_) => vstd::pervasive::unreached(),
        }
    }

    /// Credits the open ground at `position` to `team`.  Ground off the
    /// board or under a building is credited to nobody.
    pub fn award_tile(&mut self, position: Position, team: Team) -> (outcome: Result<
        (),
        BoardError,
    >)
        requires
            old(self)@.well_formed(),
        ensures
            outcome == (if !old(self)@.holds(position) {
                Err(BoardError::PieceOutOfBounds(position))
            } else if old(self)@.tile(position) is Occupied {
                Err(BoardError::PieceOnOccupiedTile(position))
            } else {
                Ok(())
            }),
            final(self)@ == (if outcome is Ok {
                old(self)@.award(position, team)
            } else {
                old(self)@
            }),
            final(self)@.well_formed(),
    {
        match self.tiles.get(position.x, position.y) {
            None => Err(BoardError::PieceOutOfBounds(position)),
            Some(Tile::Occupied(_)) => Err(BoardError::PieceOnOccupiedTile(position)),
            Some(Tile::Empty(_)) => {
                proof {
                    lemma_award_keeps_well_formed(self@, position, team);
                }
                let mut cells: Vec<Position> = Vec::new();
                cells.push(position);
                assert(cells@ =~= seq![position]);
                self.stamp(&cells, Tile::Empty(team));
                Ok(())
            },
        }
    }
}

impl Default for Board {
    /// The board of the game: ten by ten.
    fn default() -> (board: Self)
        ensures
            board@ == BoardView::empty(10),
            board@.well_formed(),
    {
        Self::with_size(10)
    }
}

/// The board cell under `cell` of a footprint put at `position`.
fn reach(position: Position, cell: Position) -> (at: Position)
    ensures
        at == target(position, cell),
{
    Position { x: position.x.saturating_add(cell.x), y: position.y.saturating_add(cell.y) }
}

} // verus!
