use std::collections::HashSet;

use cathedral::position::Position;

fn set_of(positions: Vec<Position>) -> HashSet<Position> {
    positions.into_iter().collect()
}

fn set_from<const N: usize>(pairs: [(usize, usize); N]) -> HashSet<Position> {
    pairs.into_iter().map(Position::from).collect()
}

#[test]
fn test_manhattan_distance() {
    let p1 = Position { x: 1, y: 2 };
    assert_eq!(p1.manhattan_distance(&p1), 0);
    let p2 = Position { x: 2, y: 1 };
    assert_eq!(p1.manhattan_distance(&p2), 2);
}

#[test]
fn test_orthogonal_adjacent_positions() {
    let upper_bound = Position { x: 10, y: 10 };

    let p = Position { x: 1, y: 1 };
    let positions = set_of(p.orthogonal_adjacent_positions_iter(upper_bound));
    assert_eq!(positions, set_from([(1, 2), (2, 1), (1, 0), (0, 1)]));

    let p = Position { x: 0, y: 0 };
    let positions = set_of(p.orthogonal_adjacent_positions_iter(upper_bound));
    assert_eq!(positions, set_from([(1, 0), (0, 1)]));

    let p = Position { x: 9, y: 9 };
    let positions = set_of(p.orthogonal_adjacent_positions_iter(upper_bound));
    assert_eq!(positions, set_from([(9, 8), (8, 9)]));
}

#[test]
fn test_diagonal_adjacent_positions() {
    let upper_bound = Position { x: 10, y: 10 };

    let p = Position { x: 1, y: 1 };
    let positions = set_of(p.diagonal_adjacent_positions_iter(upper_bound));
    assert_eq!(
        positions,
        set_from([(0, 0), (1, 0), (2, 0), (2, 1), (2, 2), (1, 2), (0, 2), (0, 1)])
    );

    let p = Position { x: 0, y: 0 };
    let positions = set_of(p.diagonal_adjacent_positions_iter(upper_bound));
    assert_eq!(positions, set_from([(1, 0), (0, 1), (1, 1)]));

    let p = Position { x: 9, y: 9 };
    let positions = set_of(p.diagonal_adjacent_positions_iter(upper_bound));
    assert_eq!(positions, set_from([(9, 8), (8, 9), (8, 8)]));
}

#[test]
fn manhattan_distance_is_symmetric_and_sums_both_axes() {
    let a = Position { x: 3, y: 10 };
    let b = Position { x: 7, y: 4 };
    assert_eq!(a.manhattan_distance(&b), 10);
    assert_eq!(b.manhattan_distance(&a), 10);
    let far = Position { x: usize::MAX, y: 0 };
    assert_eq!(far.manhattan_distance(&Position { x: 0, y: 0 }), usize::MAX);
}

#[test]
fn checked_add_sums_each_axis() {
    let a = Position { x: 3, y: 10 };
    let b = Position { x: 7, y: 4 };
    assert_eq!(a.checked_add(b), Some(Position { x: 10, y: 14 }));
    assert_eq!(a.checked_add(Position::default()), Some(a));
}

#[test]
fn checked_add_reports_overflow_of_either_axis() {
    let big_x = Position { x: usize::MAX, y: 0 };
    let big_y = Position { x: 0, y: usize::MAX };
    let one = Position { x: 1, y: 1 };
    assert_eq!(big_x.checked_add(one), None);
    assert_eq!(big_y.checked_add(one), None);
    assert_eq!(
        big_x.checked_add(Position { x: 0, y: 5 }),
        Some(Position { x: usize::MAX, y: 5 })
    );
}

#[test]
fn add_and_sub_work_componentwise() {
    let a = Position { x: 3, y: 10 };
    let b = Position { x: 2, y: 4 };
    assert_eq!(a + b, Position { x: 5, y: 14 });
    assert_eq!(a - b, Position { x: 1, y: 6 });
    assert_eq!((a + b) - b, a);
}

#[test]
fn conversions_keep_both_coordinates() {
    let p: Position = (4, 9).into();
    assert_eq!(p, Position { x: 4, y: 9 });
    let pair: (usize, usize) = p.into();
    assert_eq!(pair, (4, 9));
    assert_eq!(Position::default(), Position { x: 0, y: 0 });
}

#[test]
fn neighbours_come_in_the_order_of_the_offsets() {
    let upper_bound = Position { x: 10, y: 10 };
    let p = Position { x: 1, y: 1 };
    assert_eq!(
        p.diagonal_adjacent_positions_iter(upper_bound),
        vec![
            Position { x: 1, y: 2 },
            Position { x: 2, y: 2 },
            Position { x: 2, y: 1 },
            Position { x: 2, y: 0 },
            Position { x: 1, y: 0 },
            Position { x: 0, y: 0 },
            Position { x: 0, y: 1 },
            Position { x: 0, y: 2 },
        ]
    );
    assert_eq!(
        p.orthogonal_adjacent_positions_iter(upper_bound),
        vec![
            Position { x: 1, y: 2 },
            Position { x: 2, y: 1 },
            Position { x: 1, y: 0 },
            Position { x: 0, y: 1 },
        ]
    );
}

#[test]
fn neighbours_respect_a_bound_that_differs_by_axis() {
    let upper_bound = Position { x: 2, y: 5 };
    let p = Position { x: 1, y: 4 };
    let positions = set_of(p.diagonal_adjacent_positions_iter(upper_bound));
    assert_eq!(positions, set_from([(0, 3), (0, 4), (1, 3)]));
}

#[test]
fn neighbours_of_a_cell_outside_the_bound_are_those_inside() {
    let upper_bound = Position { x: 3, y: 3 };
    let p = Position { x: 3, y: 1 };
    let positions = set_of(p.diagonal_adjacent_positions_iter(upper_bound));
    assert_eq!(positions, set_from([(2, 0), (2, 1), (2, 2)]));
    let far = Position { x: 7, y: 7 };
    assert!(far.diagonal_adjacent_positions_iter(upper_bound).is_empty());
}

#[test]
fn neighbours_near_the_largest_coordinate_do_not_wrap() {
    let upper_bound = Position { x: usize::MAX, y: usize::MAX };
    let p = Position { x: usize::MAX, y: usize::MAX };
    let positions = set_of(p.diagonal_adjacent_positions_iter(upper_bound));
    assert_eq!(positions, set_from([(usize::MAX - 1, usize::MAX - 1)]));
    assert!(Position { x: 0, y: 0 }
        .orthogonal_adjacent_positions_iter(Position { x: 0, y: 0 })
        .is_empty());
}

#[test]
fn adjacent_positions_follow_the_given_offsets() {
    let upper_bound = Position { x: 10, y: 10 };
    let p = Position { x: 5, y: 5 };
    assert_eq!(
        p.adjacent_positions_iter(upper_bound, &[(2, -3), (-6, 0), (0, 5), (4, 4)]),
        vec![Position { x: 7, y: 2 }, Position { x: 9, y: 9 }]
    );
}
