//! Grid coordinates: checked arithmetic, Manhattan distance and the bounded
//! four- and eight-neighbourhoods of a cell.
use vstd::prelude::*;

verus! {

/// A cell of the grid.  On a board `x` counts rows and `y` counts columns,
/// both from zero.
#[derive(Clone, Copy, PartialEq, Eq, Structural, Hash, Debug)]
pub struct Position {
    pub x: usize,
    pub y: usize,
}

impl Default for Position {
    /// The origin.
    fn default() -> (origin: Self)
        ensures
            origin == (Position { x: 0, y: 0 }),
    {
        Position { x: 0, y: 0 }
    }
}

impl From<(usize, usize)> for Position {
    fn from(value: (usize, usize)) -> (at: Self) {
        Position { x: value.0, y: value.1 }
    }
}

impl vstd::std_specs::convert::FromSpecImpl<(usize, usize)> for Position {
    open spec fn obeys_from_spec() -> bool {
        true
    }

    open spec fn from_spec(value: (usize, usize)) -> Self {
        Position { x: value.0, y: value.1 }
    }
}

impl From<Position> for (usize, usize) {
    fn from(value: Position) -> (pair: Self) {
        (value.x, value.y)
    }
}

impl vstd::std_specs::convert::FromSpecImpl<Position> for (usize, usize) {
    open spec fn obeys_from_spec() -> bool {
        true
    }

    open spec fn from_spec(value: Position) -> Self {
        (value.x, value.y)
    }
}

impl core::ops::Add for Position {
    type Output = Position;

    /// Componentwise sum.  The caller rules out overflow.
    fn add(self, rhs: Self) -> (sum: Position) {
        Position { x: self.x + rhs.x, y: self.y + rhs.y }
    }
}

impl vstd::std_specs::ops::AddSpecImpl for Position {
    open spec fn obeys_add_spec() -> bool {
        true
    }

    open spec fn add_req(self, rhs: Position) -> bool {
        self.x + rhs.x <= usize::MAX && self.y + rhs.y <= usize::MAX
    }

    open spec fn add_spec(self, rhs: Position) -> Position {
        self.plus(rhs)
    }
}

impl core::ops::Sub for Position {
    type Output = Position;

    /// Componentwise difference.  The caller rules out a negative
    /// coordinate.
    fn sub(self, rhs: Self) -> (difference: Position) {
        Position { x: self.x - rhs.x, y: self.y - rhs.y }
    }
}

impl vstd::std_specs::ops::SubSpecImpl for Position {
    open spec fn obeys_sub_spec() -> bool {
        true
    }

    open spec fn sub_req(self, rhs: Position) -> bool {
        rhs.x <= self.x && rhs.y <= self.y
    }

    open spec fn sub_spec(self, rhs: Position) -> Position {
        Position { x: (self.x - rhs.x) as usize, y: (self.y - rhs.y) as usize }
    }
}

impl Position {
    /// Componentwise sum, where it fits in `usize`.
    pub open spec fn plus(self, rhs: Position) -> Position {
        Position { x: (self.x + rhs.x) as usize, y: (self.y + rhs.y) as usize }
    }

    /// Both coordinates lie strictly below those of `upper_bound`.
    pub open spec fn within(self, upper_bound: Position) -> bool {
        self.x < upper_bound.x && self.y < upper_bound.y
    }

    /// `|x - x'| + |y - y'|`.
    pub open spec fn distance(self, other: Position) -> nat {
        vstd::math::abs(self.x - other.x) + vstd::math::abs(self.y - other.y)
    }

    /// The two cells are distinct and differ by at most one in each
    /// coordinate: they are neighbours in the eight-neighbourhood.
    pub open spec fn touches(self, other: Position) -> bool {
        &&& self != other
        &&& vstd::math::abs(self.x - other.x) <= 1
        &&& vstd::math::abs(self.y - other.y) <= 1
    }

    /// The two cells share an edge: they are neighbours in the
    /// four-neighbourhood.
    pub open spec fn borders(self, other: Position) -> bool {
        self.distance(other) == 1
    }

    /// The cell reached from `self` by `offset`, if both of its coordinates
    /// are at least zero and strictly below those of `upper_bound`.
    pub open spec fn moved(self, offset: (isize, isize), upper_bound: Position) -> Option<
        Position,
    > {
        let x = self.x + offset.0;
        let y = self.y + offset.1;
        if 0 <= x < upper_bound.x && 0 <= y < upper_bound.y {
            Some(Position { x: x as usize, y: y as usize })
        } else {
            None
        }
    }

    /// The cells reached from `self` by each of `offsets` in turn, without
    /// those that leave `[0, upper_bound)`.
    pub open spec fn neighbours(
        self,
        upper_bound: Position,
        offsets: Seq<(isize, isize)>,
    ) -> Seq<Position> {
        offsets.filter_map(|offset: (isize, isize)| self.moved(offset, upper_bound))
    }

    /// Offsets of the four-neighbourhood, in the order in which
    /// [`Position::orthogonal_adjacent_positions_iter`] tries them.
    pub open spec fn edge_offsets() -> Seq<(isize, isize)> {
        seq![(0isize, 1isize), (1isize, 0isize), (0isize, -1isize), (-1isize, 0isize)]
    }

    /// Offsets of the eight-neighbourhood, in the order in which
    /// [`Position::diagonal_adjacent_positions_iter`] tries them.
    pub open spec fn ring_offsets() -> Seq<(isize, isize)> {
        seq![
            (0isize, 1isize),
            (1isize, 1isize),
            (1isize, 0isize),
            (1isize, -1isize),
            (0isize, -1isize),
            (-1isize, -1isize),
            (-1isize, 0isize),
            (-1isize, 1isize),
        ]
    }

    /// Componentwise sum, or `None` when either coordinate would exceed
    /// `usize::MAX`.
    pub fn checked_add(self, rhs: Self) -> (sum: Option<Self>)
        ensures
            sum == (if self.x + rhs.x <= usize::MAX && self.y + rhs.y <= usize::MAX {
                Some(Position { x: (self.x + rhs.x) as usize, y: (self.y + rhs.y) as usize })
            } else {
                None
            }),
    {
        let x = match self.x.checked_add(rhs.x) {
            Some(it) => it,
            None => return None,
        };
        let y = match self.y.checked_add(rhs.y) {
            Some(it) => it,
            None => return None,
        };
        Some(Position { x, y })
    }

    /// Manhattan distance between `self` and `other`.
    pub fn manhattan_distance(&self, other: &Self) -> (steps: usize)
        requires
            self.distance(*other) <= usize::MAX,
        ensures
            steps == self.distance(*other),
    {
        let dx = if self.x >= other.x {
            self.x - other.x
        } else {
            other.x - self.x
        };
        let dy = if self.y >= other.y {
            self.y - other.y
        } else {
            other.y - self.y
        };
        dx + dy
    }

    /// The neighbours of `self` at the given offsets that lie inside
    /// `[0, upper_bound)`, in the order of the offsets.
    pub fn adjacent_positions_iter(self, upper_bound: Self, coords: &[(isize, isize)]) -> (found:
        Vec<Self>)
        ensures
            found@ == self.neighbours(upper_bound, coords@),
    {
        let ghost step = |offset: (isize, isize)| self.moved(offset, upper_bound);
        let mut found: Vec<Self> = Vec::new();
        let mut i: usize = 0;
        while i < coords.len()
            invariant
                i <= coords.len(),
                step == |offset: (isize, isize)| self.moved(offset, upper_bound),
                found@ == coords@.take(i as int).filter_map(step),
            decreases coords.len() - i,
        {
            let t = coords[i];
            proof {
                coords@.lemma_filter_map_take_succ(step, i as int);
            }
            let x = match self.x.checked_add_signed(t.0) {
                Some(v) => if v < upper_bound.x {
                    Some(v)
                } else {
                    None
                },
                None => None,
            };
            let y = match self.y.checked_add_signed(t.1) {
                Some(v) => if v < upper_bound.y {
                    Some(v)
                } else {
                    None
                },
                None => None,
            };
            match (x, y) {
                (Some(x), Some(y)) => {
                    found.push(Position { x, y });
                },
                _ => {},
            }
            i += 1;
        }
        assert(coords@.take(coords.len() as int) =~= coords@);
        found
    }

    /// The in-range cells among the four that share an edge with `self`.
    pub fn orthogonal_adjacent_positions_iter(self, upper_bound: Self) -> (found: Vec<Self>)
        ensures
            found@ == self.neighbours(upper_bound, Self::edge_offsets()),
            found@.no_duplicates(),
            forall|p: Position|
                found@.contains(p) <==> self.borders(p) && p.within(upper_bound),
    {
        let offsets: [(isize, isize); 4] = [(0, 1), (1, 0), (0, -1), (-1, 0)];
        assert(offsets@ =~= Self::edge_offsets());
        proof {
            lemma_edge_neighbours(self, upper_bound);
        }
        self.adjacent_positions_iter(upper_bound, offsets.as_slice())
    }

    /// The in-range cells among the eight that share an edge or a corner with
    /// `self`.
    pub fn diagonal_adjacent_positions_iter(self, upper_bound: Self) -> (found: Vec<Self>)
        ensures
            found@ == self.neighbours(upper_bound, Self::ring_offsets()),
            found@.no_duplicates(),
            forall|p: Position|
                found@.contains(p) <==> self.touches(p) && p.within(upper_bound),
    {
        let offsets: [(isize, isize); 8] = [
            (0, 1),
            (1, 1),
            (1, 0),
            (1, -1),
            (0, -1),
            (-1, -1),
            (-1, 0),
            (-1, 1),
        ];
        assert(offsets@ =~= Self::ring_offsets());
        proof {
            lemma_ring_neighbours(self, upper_bound);
        }
        self.adjacent_positions_iter(upper_bound, offsets.as_slice())
    }
}

/// Distinct offsets lead to distinct cells, so a list of neighbours taken at
/// pairwise distinct offsets holds no cell twice.
proof fn lemma_neighbours_distinct(at: Position, upper_bound: Position, offsets: Seq<(isize, isize)>)
    requires
        offsets.no_duplicates(),
    ensures
        at.neighbours(upper_bound, offsets).no_duplicates(),
        forall|p: Position|
            at.neighbours(upper_bound, offsets).contains(p) <==> exists|i: int|
                0 <= i < offsets.len() && at.moved(#[trigger] offsets[i], upper_bound) == Some(p),
    decreases offsets.len(),
{
    let step = |offset: (isize, isize)| at.moved(offset, upper_bound);
    let all = at.neighbours(upper_bound, offsets);
    if offsets.len() == 0 {
    } else {
        let rest = offsets.drop_last();
        let last = offsets.last();
        lemma_neighbours_distinct(at, upper_bound, rest);
        let before = at.neighbours(upper_bound, rest);
        assert(before == rest.filter_map(step));
        assert(all == offsets.filter_map(step));
        assert forall|i: int| 0 <= i < rest.len() implies rest[i] == offsets[i] && rest[i]
            != last by {
            assert(offsets[i] != offsets[offsets.len() - 1]);
        }
        match at.moved(last, upper_bound) {
            Some(p) => {
                assert(all =~= before + seq![p]);
                assert(!before.contains(p)) by {
                    if before.contains(p) {
                        let i = choose|i: int|
                            0 <= i < rest.len() && at.moved(#[trigger] rest[i], upper_bound)
                                == Some(p);
                        assert(rest[i] != last);
                    }
                }
                assert forall|q: Position| all.contains(q) implies exists|i: int|
                    0 <= i < offsets.len() && at.moved(#[trigger] offsets[i], upper_bound)
                        == Some(q) by {
                    let k = choose|k: int| 0 <= k < all.len() && all[k] == q;
                    if k < before.len() {
                        assert(before[k] == q);
                        assert(before.contains(q));
                        let i = choose|i: int|
                            0 <= i < rest.len() && at.moved(#[trigger] rest[i], upper_bound)
                                == Some(q);
                        assert(offsets[i] == rest[i]);
                    } else {
                        assert(offsets[offsets.len() - 1] == last);
                    }
                }
                assert forall|q: Position|
                    (exists|i: int|
                        0 <= i < offsets.len() && at.moved(#[trigger] offsets[i], upper_bound)
                            == Some(q)) implies all.contains(q) by {
                    let i = choose|i: int|
                        0 <= i < offsets.len() && at.moved(#[trigger] offsets[i], upper_bound)
                            == Some(q);
                    if i < rest.len() {
                        assert(rest[i] == offsets[i]);
                        assert(before.contains(q));
                        let k = choose|k: int| 0 <= k < before.len() && before[k] == q;
                        assert(all[k] == q);
                    } else {
                        assert(all[before.len() as int] == q);
                    }
                }
            },
            None => {
                assert(all =~= before);
                assert forall|q: Position|
                    (exists|i: int|
                        0 <= i < offsets.len() && at.moved(#[trigger] offsets[i], upper_bound)
                            == Some(q)) implies all.contains(q) by {
                    let i = choose|i: int|
                        0 <= i < offsets.len() && at.moved(#[trigger] offsets[i], upper_bound)
                            == Some(q);
                    assert(i < rest.len());
                    assert(rest[i] == offsets[i]);
                }
                assert forall|q: Position| all.contains(q) implies exists|i: int|
                    0 <= i < offsets.len() && at.moved(#[trigger] offsets[i], upper_bound)
                        == Some(q) by {
                    let i = choose|i: int|
                        0 <= i < rest.len() && at.moved(#[trigger] rest[i], upper_bound)
                            == Some(q);
                    assert(offsets[i] == rest[i]);
                }
            },
        }
    }
}

/// The bounded four-neighbourhood holds exactly the in-range cells that share
/// an edge with `at`, each once.
pub proof fn lemma_edge_neighbours(at: Position, upper_bound: Position)
    ensures
        at.neighbours(upper_bound, Position::edge_offsets()).no_duplicates(),
        forall|p: Position|
            at.neighbours(upper_bound, Position::edge_offsets()).contains(p) <==> at.borders(p)
                && p.within(upper_bound),
{
    let offsets = Position::edge_offsets();
    lemma_neighbours_distinct(at, upper_bound, offsets);
    let found = at.neighbours(upper_bound, offsets);
    assert forall|p: Position| at.borders(p) && p.within(upper_bound) implies found.contains(
        p,
    ) by {
        let dx = p.x - at.x;
        let dy = p.y - at.y;
        let i: int = if dx == 0 && dy == 1 {
            0
        } else if dx == 1 && dy == 0 {
            1
        } else if dx == 0 && dy == -1 {
            2
        } else {
            3
        };
        assert(at.moved(offsets[i], upper_bound) == Some(p));
    }
}

/// The bounded eight-neighbourhood holds exactly the in-range cells that
/// touch `at`, each once.
pub proof fn lemma_ring_neighbours(at: Position, upper_bound: Position)
    ensures
        at.neighbours(upper_bound, Position::ring_offsets()).no_duplicates(),
        forall|p: Position|
            at.neighbours(upper_bound, Position::ring_offsets()).contains(p) <==> at.touches(p)
                && p.within(upper_bound),
{
    let offsets = Position::ring_offsets();
    lemma_neighbours_distinct(at, upper_bound, offsets);
    let found = at.neighbours(upper_bound, offsets);
    assert forall|p: Position| at.touches(p) && p.within(upper_bound) implies found.contains(
        p,
    ) by {
        let dx = p.x - at.x;
        let dy = p.y - at.y;
        let i: int = if dx == 0 && dy == 1 {
            0
        } else if dx == 1 && dy == 1 {
            1
        } else if dx == 1 && dy == 0 {
            2
        } else if dx == 1 && dy == -1 {
            3
        } else if dx == 0 && dy == -1 {
            4
        } else if dx == -1 && dy == -1 {
            5
        } else if dx == -1 && dy == 0 {
            6
        } else {
            7
        };
        assert(at.moved(offsets[i], upper_bound) == Some(p));
    }
}

} // verus!
