//! Regions of capturable tiles.  After a placement, the tiles that touch the
//! new piece and could be captured for its side are the seeds; the region
//! of a seed is everything that can be reached from it over capturable
//! tiles, moving from a tile to any of the eight around it.
use crate::board::{Board, BoardView, Tile};
use crate::piece::{Piece, PieceView, Placed};
use crate::position::Position;
use crate::shape::lemma_index_splits;
use crate::Team;
use vstd::prelude::*;

verus! {

impl BoardView {
    /// The tile at `p` can be captured for `team`: it lies on the board and
    /// is open ground, whoever it is credited to, or carries a building of
    /// the side that opposes `team`.
    pub open spec fn capturable(self, team: Team, p: Position) -> bool {
        self.holds(p) && match self.tile(p) {
            Tile::Empty(_) => true,
            Tile::Occupied(owner) => team.opposes(owner),
        }
    }

    /// A walk for `team`: a list of cells in which each cell after the first
    /// touches the one before it and can be captured for `team`.
    pub open spec fn is_walk(self, team: Team, walk: Seq<Position>) -> bool {
        walk.len() > 0 && forall|k: int|
            0 < k < walk.len() ==> walk[k - 1].touches(#[trigger] walk[k]) && self.capturable(
                team,
                walk[k],
            )
    }

    /// Some walk for `team` leads from `from` to `to`.
    pub open spec fn reaches(self, team: Team, from: Position, to: Position) -> bool {
        exists|walk: Seq<Position>| #[trigger]
            self.is_walk(team, walk) && walk[0] == from && walk.last() == to
    }

    /// The cell can be captured for the side of `piece` and touches a cell
    /// that `piece` covers.
    pub open spec fn is_seed(self, piece: PieceView, p: Position) -> bool {
        self.capturable(piece.team, p) && exists|k: int|
            0 <= k < piece.footprint().len() && (#[trigger] piece.footprint()[k]).touches(p)
    }
}

/// Every cell reaches itself.
pub proof fn lemma_reaches_itself(board: BoardView, team: Team, at: Position)
    ensures
        board.reaches(team, at, at),
{
    assert(board.is_walk(team, seq![at]));
}

/// A walk can be continued by one step to a cell that touches its end and
/// can be captured.
pub proof fn lemma_reach_extends(
    board: BoardView,
    team: Team,
    from: Position,
    mid: Position,
    to: Position,
)
    requires
        board.reaches(team, from, mid),
        mid.touches(to),
        board.capturable(team, to),
    ensures
        board.reaches(team, from, to),
{
    let walk = choose|walk: Seq<Position>| #[trigger]
        board.is_walk(team, walk) && walk[0] == from && walk.last() == mid;
    let longer = walk.push(to);
    assert forall|k: int| 0 < k < longer.len() implies longer[k - 1].touches(
        #[trigger] longer[k],
    ) && board.capturable(team, longer[k]) by {
        if k < walk.len() {
            assert(walk[k - 1].touches(walk[k]));
        }
    }
    assert(board.is_walk(team, longer));
}

/// Two walks, the second starting where the first ends, make one walk.
pub proof fn lemma_reach_joins(
    board: BoardView,
    team: Team,
    from: Position,
    mid: Position,
    to: Position,
)
    requires
        board.reaches(team, from, mid),
        board.reaches(team, mid, to),
    ensures
        board.reaches(team, from, to),
{
    let first = choose|walk: Seq<Position>| #[trigger]
        board.is_walk(team, walk) && walk[0] == from && walk.last() == mid;
    let second = choose|walk: Seq<Position>| #[trigger]
        board.is_walk(team, walk) && walk[0] == mid && walk.last() == to;
    let whole = first + second.drop_first();
    assert forall|k: int| 0 < k < whole.len() implies whole[k - 1].touches(#[trigger] whole[k])
        && board.capturable(team, whole[k]) by {
        if k < first.len() {
            assert(first[k - 1].touches(first[k]));
        } else {
            let j = k - first.len() + 1;
            assert(whole[k] == second[j]);
            assert(second[j - 1].touches(second[j]));
            if k == first.len() {
                assert(whole[k - 1] == first.last());
            } else {
                assert(whole[k - 1] == second[j - 1]);
            }
        }
    }
    assert(board.is_walk(team, whole));
    assert(whole[0] == from);
    if second.len() == 1 {
        assert(whole =~= first);
    } else {
        assert(whole.last() == second.last());
    }
}

/// A walk from a cell that can itself be captured can be walked backwards.
pub proof fn lemma_reach_reverses(board: BoardView, team: Team, from: Position, to: Position)
    requires
        board.reaches(team, from, to),
        board.capturable(team, from),
    ensures
        board.reaches(team, to, from),
{
    let walk = choose|walk: Seq<Position>| #[trigger]
        board.is_walk(team, walk) && walk[0] == from && walk.last() == to;
    let back = walk.reverse();
    assert forall|k: int| 0 < k < back.len() implies back[k - 1].touches(#[trigger] back[k])
        && board.capturable(team, back[k]) by {
        let j = walk.len() - 1 - k;
        assert(back[k] == walk[j]);
        assert(back[k - 1] == walk[j + 1]);
        assert(walk[j].touches(walk[j + 1]));
        if j > 0 {
            assert(walk[j - 1].touches(walk[j]));
        }
    }
    assert(board.is_walk(team, back));
}

/// A list of cells that holds a cell, and with each of its cells every
/// capturable cell that touches it, holds all that the cell reaches.
pub proof fn lemma_closed_list_holds_reach(
    board: BoardView,
    team: Team,
    cells: Seq<Position>,
    from: Position,
    to: Position,
)
    requires
        cells.contains(from),
        forall|i: int, q: Position|
            0 <= i < cells.len() && (#[trigger] cells[i]).touches(q) && #[trigger] board.capturable(
                team,
                q,
            ) ==> cells.contains(q),
        board.reaches(team, from, to),
    ensures
        cells.contains(to),
{
    let walk = choose|walk: Seq<Position>| #[trigger]
        board.is_walk(team, walk) && walk[0] == from && walk.last() == to;
    lemma_closed_list_holds_walk(board, team, cells, walk, walk.len() - 1);
}

proof fn lemma_closed_list_holds_walk(
    board: BoardView,
    team: Team,
    cells: Seq<Position>,
    walk: Seq<Position>,
    k: int,
)
    requires
        board.is_walk(team, walk),
        cells.contains(walk[0]),
        forall|i: int, q: Position|
            0 <= i < cells.len() && (#[trigger] cells[i]).touches(q) && #[trigger] board.capturable(
                team,
                q,
            ) ==> cells.contains(q),
        0 <= k < walk.len(),
    ensures
        cells.contains(walk[k]),
    decreases k,
{
    if k > 0 {
        lemma_closed_list_holds_walk(board, team, cells, walk, k - 1);
        let i = choose|i: int| 0 <= i < cells.len() && cells[i] == walk[k - 1];
        assert(cells[i].touches(walk[k]));
        assert(board.capturable(team, walk[k]));
    }
}

/// A list without repetition of cells of a board of `size` by `size` tiles
/// has at most `size * size` entries.
pub proof fn lemma_board_bounds_list(cells: Seq<Position>, size: nat)
    requires
        cells.no_duplicates(),
        forall|i: int| 0 <= i < cells.len() ==> (#[trigger] cells[i]).x < size && cells[i].y < size,
    ensures
        cells.len() <= size * size,
{
    let n = size as int;
    let number = |p: Position| p.x * n + p.y;
    let numbers = cells.map_values(number);
    assert forall|i: int| 0 <= i < numbers.len() implies 0 <= #[trigger] numbers[i] < n * n by {
        let p = cells[i];
        assert(p.x * n + p.y < n * n && p.x * n >= 0) by (nonlinear_arith)
            requires
                0 <= p.x,
                p.x + 1 <= n,
                0 <= p.y < n,
        ;
    }
    assert forall|i: int, j: int|
        0 <= i < numbers.len() && 0 <= j < numbers.len() && i != j implies numbers[i]
        != numbers[j] by {
        lemma_index_splits(cells[i].x as int, cells[i].y as int, n);
        lemma_index_splits(cells[j].x as int, cells[j].y as int, n);
    }
    assert(n * n >= 0) by (nonlinear_arith);
    numbers.unique_seq_to_set();
    vstd::seq_lib::seq_to_set_is_finite(numbers);
    vstd::set_lib::lemma_int_range(0, n * n);
    assert(numbers.to_set().subset_of(vstd::set_lib::set_int_range(0, n * n))) by {
        assert forall|v: int| numbers.to_set().contains(v) implies vstd::set_lib::set_int_range(
            0,
            n * n,
        ).contains(v) by {
            let i = choose|i: int| 0 <= i < numbers.len() && numbers[i] == v;
            assert(0 <= numbers[i] < n * n);
        }
    }
    vstd::set_lib::lemma_len_subset(numbers.to_set(), vstd::set_lib::set_int_range(0, n * n));
}

/// One of `groups` holds `at`.
pub open spec fn grouped(groups: Seq<Vec<Position>>, at: Position) -> bool {
    exists|g: int| 0 <= g < groups.len() && #[trigger] groups[g]@.contains(at)
}

/// One of the first `upto` cells of `cells` is `at`.
spec fn among(cells: Seq<Position>, upto: int, at: Position) -> bool {
    exists|k: int| 0 <= k < upto && #[trigger] cells[k] == at
}

/// Tells whether `list` holds `at`.
fn holds_position(list: &Vec<Position>, at: Position) -> (found: bool)
    ensures
        found == list@.contains(at),
{
    let mut i: usize = 0;
    while i < list.len()
        invariant
            i <= list.len(),
            forall|j: int| 0 <= j < i ==> list@[j] != at,
        decreases list.len() - i,
    {
        if list[i] == at {
            return true;
        }
        i += 1;
    }
    false
}

impl Board {
    /// Returns `true` if `position` lies in the first row or column, or has
    /// a coordinate equal to the size of the board.
    pub fn near_wall(&self, position: Position) -> (near: bool)
        requires
            self@.well_formed(),
        ensures
            near == (position.x == 0 || position.y == 0 || position.x == self@.size()
                || position.y == self@.size()),
    {
        let max_position = self.size();
        position.x == 0 || position.y == 0 || position.x == max_position.x || position.y
            == max_position.y
    }

    /// Returns `true` if tile at given `position` may form enclosing border
    /// on this `team`'s turn: it carries a building of `team`.
    pub fn does_position_form_border(&self, position: Position, team: Team) -> (border: bool)
        ensures
            border == (self@.holds(position) && self@.tile(position) == Tile::Occupied(team)),
    {
        match self.tile(position) {
            Some(Tile::Occupied(owner)) => owner == team,
            _ => false,
        }
    }

    /// Returns `true` if tile at given `position` can be captured by playing a
    /// piece of `team`.
    pub fn is_position_capturable(&self, position: Position, team: Team) -> (capturable: bool)
        ensures
            capturable == self@.capturable(team, position),
    {
        match self.tile(position) {
            Some(Tile::Empty(_)) => true,
            Some(Tile::Occupied(owner)) => team.is_opposing_team(&owner),
            None => false,
        }
    }

    /// Adds to `found` each capturable cell around `at` that it does not
    /// hold yet.
    fn gather_around(&self, at: Position, team: Team, found: &mut Vec<Position>)
        requires
            self@.well_formed(),
            old(found)@.no_duplicates(),
        ensures
            final(found)@.no_duplicates(),
            old(found)@.is_prefix_of(final(found)@),
            forall|q: Position| #[trigger]
                final(found)@.contains(q) <==> old(found)@.contains(q) || (at.touches(q)
                    && self@.capturable(team, q)),
    {
        let bound = self.size();
        let around = at.diagonal_adjacent_positions_iter(bound);
        let ghost before = found@;
        let mut j: usize = 0;
        while j < around.len()
            invariant
                j <= around.len(),
                found@.no_duplicates(),
                before.is_prefix_of(found@),
                forall|q: Position| #[trigger]
                    found@.contains(q) <==> before.contains(q) || (among(around@, j as int, q)
                        && self@.capturable(team, q)),
            decreases around.len() - j,
        {
            let q = around[j];
            let ghost so_far = found@;
            if self.is_position_capturable(q, team) && !holds_position(found, q) {
                found.push(q);
            }
            assert forall|p: Position| #[trigger]
                found@.contains(p) <==> before.contains(p) || (among(around@, j + 1, p)
                    && self@.capturable(team, p)) by {
                assert(among(around@, j + 1, p) <==> among(around@, j as int, p) || p == q) by {
                    if among(around@, j + 1, p) {
                        let k = choose|k: int| 0 <= k < j + 1 && #[trigger] around@[k] == p;
                        if k < j {
                            assert(among(around@, j as int, p));
                        }
                    }
                    if among(around@, j as int, p) {
                        let k = choose|k: int| 0 <= k < j && #[trigger] around@[k] == p;
                        assert(0 <= k < j + 1 && around@[k] == p);
                    }
                    if p == q {
                        assert(around@[j as int] == p);
                    }
                }
                assert(so_far.contains(p) <==> before.contains(p) || (among(around@, j as int, p)
                    && self@.capturable(team, p)));
                assert(found@.contains(p) <==> so_far.contains(p) || (p == q
                    && self@.capturable(team, q))) by {
                    if so_far.contains(p) {
                        let i = choose|i: int| 0 <= i < so_far.len() && so_far[i] == p;
                        assert(found@[i] == p);
                    }
                    if found@.contains(p) {
                        let i = choose|i: int| 0 <= i < found@.len() && found@[i] == p;
                        if i < so_far.len() {
                            assert(so_far[i] == p);
                        }
                    }
                    if p == q && self@.capturable(team, q) && !so_far.contains(q) {
                        assert(found@[so_far.len() as int] == p);
                    }
                }
            }
            j += 1;
        }
        assert forall|q: Position| #[trigger]
            found@.contains(q) <==> before.contains(q) || (at.touches(q) && self@.capturable(
                team,
                q,
            )) by {
            if at.touches(q) && self@.capturable(team, q) {
                assert(q.within(bound));
                assert(around@.contains(q));
                let k = choose|k: int| 0 <= k < around@.len() && around@[k] == q;
                assert(among(around@, j as int, q));
            }
            if among(around@, j as int, q) {
                let k = choose|k: int| 0 <= k < j && #[trigger] around@[k] == q;
                assert(around@.contains(around@[k]));
            }
        }
    }

    /// Returns the capturable cells that touch `piece`, each once.
    pub fn adjacent_capturable_positions_for_piece(&self, piece: &Piece<Placed>) -> (seeds: Vec<
        Position,
    >)
        requires
            self@.well_formed(),
            piece@.well_formed(),
            piece@.fits_at(piece@.position),
        ensures
            seeds@.no_duplicates(),
            forall|p: Position| #[trigger] seeds@.contains(p) <==> self@.is_seed(piece@, p),
    {
        let cells = piece.occupied_positions_iter();
        let team = piece.team();
        let mut seeds: Vec<Position> = Vec::new();
        let mut i: usize = 0;
        while i < cells.len()
            invariant
                i <= cells.len(),
                self@.well_formed(),
                cells@ == piece@.footprint(),
                team == piece@.team,
                seeds@.no_duplicates(),
                forall|p: Position| #[trigger]
                    seeds@.contains(p) <==> self@.capturable(team, p) && exists|k: int|
                        0 <= k < i && (#[trigger] cells@[k]).touches(p),
            decreases cells.len() - i,
        {
            let ghost so_far = seeds@;
            self.gather_around(cells[i], team, &mut seeds);
            assert forall|p: Position| #[trigger]
                seeds@.contains(p) <==> self@.capturable(team, p) && exists|k: int|
                    0 <= k < i + 1 && (#[trigger] cells@[k]).touches(p) by {
                assert(so_far.contains(p) <==> self@.capturable(team, p) && exists|k: int|
                    0 <= k < i && (#[trigger] cells@[k]).touches(p));
                if seeds@.contains(p) {
                    if so_far.contains(p) {
                        let k = choose|k: int| 0 <= k < i && (#[trigger] cells@[k]).touches(p);
                        assert(0 <= k < i + 1 && cells@[k].touches(p));
                    } else {
                        assert(cells@[i as int].touches(p));
                    }
                }
                if self@.capturable(team, p) && exists|k: int|
                    0 <= k < i + 1 && (#[trigger] cells@[k]).touches(p) {
                    let k = choose|k: int| 0 <= k < i + 1 && (#[trigger] cells@[k]).touches(p);
                    if k < i {
                        assert(so_far.contains(p));
                    }
                }
            }
            i += 1;
        }
        seeds
    }

    /// Finds and returns the set of tiles in the same group as the tile at
    /// `initial_position`: that position first, and then every cell that a
    /// walk for `team` reaches from it, each once.
    pub fn find_tile_set(&self, initial_position: Position, team: Team) -> (region: Vec<Position>)
        requires
            self@.well_formed(),
        ensures
            region@.no_duplicates(),
            region@.len() > 0,
            region@[0] == initial_position,
            forall|p: Position| #[trigger]
                region@.contains(p) <==> self@.reaches(team, initial_position, p),
    {
        let ghost size = self@.size();
        let ghost limit = size * size + 1;
        let mut region: Vec<Position> = Vec::new();
        region.push(initial_position);
        proof {
            lemma_reaches_itself(self@, team, initial_position);
        }
        let mut head: usize = 0;
        while head < region.len()
            invariant
                self@.well_formed(),
                size == self@.size(),
                limit == size * size + 1,
                head <= region.len(),
                region@.no_duplicates(),
                region@.len() > 0,
                region@[0] == initial_position,
                forall|i: int|
                    0 <= i < region@.len() ==> self@.reaches(
                        team,
                        initial_position,
                        #[trigger] region@[i],
                    ),
                forall|i: int| 0 < i < region@.len() ==> self@.capturable(team, #[trigger] region@[i]),
                forall|i: int, q: Position|
                    0 <= i < head && (#[trigger] region@[i]).touches(q) && #[trigger] self@.capturable(
                        team,
                        q,
                    ) ==> region@.contains(q),
            decreases limit - head,
        {
            let at = region[head];
            let ghost before = region@;
            self.gather_around(at, team, &mut region);
            proof {
                assert forall|i: int| 0 <= i < before.len() implies region@[i] == before[i] by {}
                assert forall|i: int| 0 <= i < region@.len() implies self@.reaches(
                    team,
                    initial_position,
                    #[trigger] region@[i],
                ) && (i > 0 ==> self@.capturable(team, region@[i])) by {
                    if i < before.len() {
                        assert(region@[i] == before[i]);
                    } else {
                        let q = region@[i];
                        assert(region@.contains(q));
                        if before.contains(q) {
                            let k = choose|k: int| 0 <= k < before.len() && before[k] == q;
                            assert(region@[k] == q);
                        }
                        assert(at.touches(q) && self@.capturable(team, q));
                        lemma_reach_extends(self@, team, initial_position, at, q);
                    }
                }
                assert forall|i: int, q: Position|
                    0 <= i < head + 1 && (#[trigger] region@[i]).touches(q)
                        && #[trigger] self@.capturable(team, q) implies region@.contains(q) by {
                    if i < head {
                        assert(before[i].touches(q));
                        assert(before.contains(q));
                    }
                }
                let rest = region@.drop_first();
                assert forall|i: int| 0 <= i < rest.len() implies (#[trigger] rest[i]).x < size
                    && rest[i].y < size by {
                    assert(rest[i] == region@[i + 1]);
                    assert(self@.capturable(team, region@[i + 1]));
                }
                assert(rest.no_duplicates()) by {
                    assert forall|i: int, j: int|
                        0 <= i < rest.len() && 0 <= j < rest.len() && i != j implies rest[i]
                        != rest[j] by {
                        assert(rest[i] == region@[i + 1] && rest[j] == region@[j + 1]);
                    }
                }
                lemma_board_bounds_list(rest, size);
            }
            head += 1;
        }
        proof {
            assert forall|p: Position| self@.reaches(team, initial_position, p) implies region@.contains(
                p,
            ) by {
                assert(region@.contains(region@[0]));
                lemma_closed_list_holds_reach(self@, team, region@, initial_position, p);
            }
            assert forall|p: Position| region@.contains(p) implies self@.reaches(
                team,
                initial_position,
                p,
            ) by {
                let i = choose|i: int| 0 <= i < region@.len() && region@[i] == p;
                assert(self@.reaches(team, initial_position, region@[i]));
            }
        }
        region
    }

    /// Tells whether one of `groups` holds `at`.
    fn in_some_group(groups: &Vec<Vec<Position>>, at: Position) -> (found: bool)
        ensures
            found == grouped(groups@, at),
    {
        let mut g: usize = 0;
        while g < groups.len()
            invariant
                g <= groups.len(),
                forall|h: int| 0 <= h < g ==> !#[trigger] groups@[h]@.contains(at),
            decreases groups.len() - g,
        {
            if holds_position(&groups[g], at) {
                return true;
            }
            g += 1;
        }
        false
    }

    /// Returns the regions of capturable tiles that touch `piece`, one for
    /// each group of seeds that reach each other.  A region starts with one
    /// of the seeds and holds exactly what that seed reaches, each cell
    /// once; every seed lies in one region, and no cell lies in two.
    pub fn find_tile_sets(&self, piece: &Piece<Placed>) -> (regions: Vec<Vec<Position>>)
        requires
            self@.well_formed(),
            piece@.well_formed(),
            piece@.fits_at(piece@.position),
        ensures
            forall|g: int|
                0 <= g < regions@.len() ==> (#[trigger] regions@[g])@.no_duplicates()
                    && regions@[g]@.len() > 0 && self@.is_seed(piece@, regions@[g]@[0]),
            forall|g: int, p: Position|
                0 <= g < regions@.len() ==> (#[trigger] regions@[g]@.contains(p) <==> self@.reaches(
                    piece@.team,
                    regions@[g]@[0],
                    p,
                )),
            forall|p: Position|
                self@.is_seed(piece@, p) ==> exists|g: int|
                    0 <= g < regions@.len() && #[trigger] regions@[g]@.contains(p),
            forall|g: int, h: int, p: Position|
                0 <= g < regions@.len() && 0 <= h < regions@.len()
                    && #[trigger] regions@[g]@.contains(p) && #[trigger] regions@[h]@.contains(p)
                    ==> g == h,
    {
        let seeds = self.adjacent_capturable_positions_for_piece(piece);
        let team = piece.team();
        let mut groups: Vec<Vec<Position>> = Vec::new();
        let mut i: usize = 0;
        while i < seeds.len()
            invariant
                i <= seeds.len(),
                self@.well_formed(),
                team == piece@.team,
                forall|p: Position| #[trigger] seeds@.contains(p) <==> self@.is_seed(piece@, p),
                forall|g: int|
                    0 <= g < groups@.len() ==> (#[trigger] groups@[g])@.no_duplicates()
                        && groups@[g]@.len() > 0 && self@.is_seed(piece@, groups@[g]@[0]),
                forall|g: int, p: Position|
                    0 <= g < groups@.len() ==> (#[trigger] groups@[g]@.contains(p) <==> self@.reaches(
                        team,
                        groups@[g]@[0],
                        p,
                    )),
                forall|k: int| 0 <= k < i ==> grouped(groups@, #[trigger] seeds@[k]),
                forall|g: int, h: int, p: Position|
                    0 <= g < groups@.len() && 0 <= h < groups@.len()
                        && #[trigger] groups@[g]@.contains(p) && #[trigger] groups@[h]@.contains(p)
                        ==> g == h,
            decreases seeds.len() - i,
        {
            let seed = seeds[i];
            let ghost before = groups@;
            assert(seeds@.contains(seed));
            if !Self::in_some_group(&groups, seed) {
                let region = self.find_tile_set(seed, team);
                groups.push(region);
                proof {
                    let n = before.len() as int;
                    assert forall|g: int| 0 <= g < n implies groups@[g] == before[g] by {}
                    assert(groups@[n]@.contains(groups@[n]@[0]));
                    assert forall|g: int, p: Position|
                        0 <= g < n && #[trigger] groups@[g]@.contains(p) implies !groups@[n]@.contains(
                            p,
                        ) by {
                        if groups@[n]@.contains(p) {
                            let founder = groups@[g]@[0];
                            assert(before[g]@.contains(p));
                            assert(self@.reaches(team, founder, p));
                            assert(self@.reaches(team, seed, p));
                            lemma_reach_reverses(self@, team, seed, p);
                            lemma_reach_joins(self@, team, founder, p, seed);
                            assert(before[g]@.contains(seed));
                        }
                    }
                    assert forall|k: int| 0 <= k < i + 1 implies grouped(
                        groups@,
                        #[trigger] seeds@[k],
                    ) by {
                        if k < i {
                            assert(grouped(before, seeds@[k]));
                            let g = choose|g: int|
                                0 <= g < before.len() && #[trigger] before[g]@.contains(seeds@[k]);
                            assert(groups@[g]@.contains(seeds@[k]));
                        } else {
                            assert(groups@[n]@.contains(seeds@[k]));
                        }
                    }
                }
            }
            i += 1;
        }
        proof {
            assert forall|p: Position| self@.is_seed(piece@, p) implies exists|g: int|
                0 <= g < groups@.len() && #[trigger] groups@[g]@.contains(p) by {
                assert(seeds@.contains(p));
                let k = choose|k: int| 0 <= k < seeds@.len() && seeds@[k] == p;
                assert(grouped(groups@, seeds@[k]));
            }
        }
        groups
    }
}

} // verus!
