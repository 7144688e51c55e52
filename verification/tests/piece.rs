use cathedral::piece::{Piece, Placed, Released, Rotation};
use cathedral::position::Position;
use cathedral::Team;

fn layout<const R: usize, const C: usize>(rows: [[bool; C]; R]) -> Vec<Vec<bool>> {
    rows.iter().map(|row| row.to_vec()).collect()
}

fn cells<const N: usize>(pairs: [(usize, usize); N]) -> Vec<Position> {
    pairs.into_iter().map(Position::from).collect()
}

fn every_kind() -> Vec<Piece<Released>> {
    let mut all = Vec::new();
    for team in [Team::White, Team::Black] {
        all.push(Piece::new_tavern(team));
        all.push(Piece::new_stable(team));
        all.push(Piece::new_inn(team));
        all.push(Piece::new_bridge(team));
        all.push(Piece::new_square(team));
        all.push(Piece::new_manor(team));
        all.push(Piece::new_abbey(team));
        all.push(Piece::new_academy(team));
        all.push(Piece::new_infirmary(team));
        all.push(Piece::new_castle(team));
        all.push(Piece::new_tower(team));
    }
    all.push(Piece::new_cathedral());
    all
}

#[test]
fn test_clockwise_rotation() {
    let mut tavern = Piece::new_tavern(Team::White);
    tavern.rotate_clockwise();
    assert_eq!(tavern.shape_rows(), layout([[true]]));
    tavern.rotate_clockwise();
    assert_eq!(tavern.shape_rows(), layout([[true]]));
    tavern.rotate_clockwise();
    assert_eq!(tavern.shape_rows(), layout([[true]]));
    tavern.rotate_clockwise();
    assert_eq!(tavern.shape_rows(), layout([[true]]));

    let mut stable = Piece::new_stable(Team::White);
    stable.rotate_clockwise();
    assert_eq!(stable.shape_rows(), layout([[true, true]]));
    stable.rotate_clockwise();
    assert_eq!(stable.shape_rows(), layout([[true], [true]]));
    stable.rotate_clockwise();
    assert_eq!(stable.shape_rows(), layout([[true, true]]));
    stable.rotate_clockwise();
    assert_eq!(stable.shape_rows(), layout([[true], [true]]));

    let mut inn = Piece::new_inn(Team::White);
    inn.rotate_clockwise();
    assert_eq!(
        inn.shape_rows(),
        layout([
            [true, true], //
            [false, true]
        ])
    );
    inn.rotate_clockwise();
    assert_eq!(
        inn.shape_rows(),
        layout([
            [false, true], //
            [true, true]
        ])
    );
    inn.rotate_clockwise();
    assert_eq!(
        inn.shape_rows(),
        layout([
            [true, false], //
            [true, true]
        ])
    );
    inn.rotate_clockwise();
    assert_eq!(
        inn.shape_rows(),
        layout([
            [true, true], //
            [true, false]
        ])
    );

    let mut manor = Piece::new_manor(Team::White);
    manor.rotate_clockwise();
    assert_eq!(
        manor.shape_rows(),
        layout([
            [false, true], //
            [true, true],
            [false, true]
        ])
    );
    manor.rotate_clockwise();
    assert_eq!(
        manor.shape_rows(),
        layout([
            [false, true, false], //
            [true, true, true]
        ])
    );
    manor.rotate_clockwise();
    assert_eq!(
        manor.shape_rows(),
        layout([
            [true, false], //
            [true, true],
            [true, false]
        ])
    );
    manor.rotate_clockwise();
    assert_eq!(
        manor.shape_rows(),
        layout([
            [true, true, true], //
            [false, true, false]
        ])
    );

    let mut cathedral = Piece::new_cathedral();
    cathedral.rotate_clockwise();
    assert_eq!(
        cathedral.shape_rows(),
        layout([
            [false, false, true, false], //
            [true, true, true, true],
            [false, false, true, false]
        ])
    );
    cathedral.rotate_clockwise();
    assert_eq!(
        cathedral.shape_rows(),
        layout([
            [false, true, false], //
            [false, true, false],
            [true, true, true],
            [false, true, false],
        ])
    );
    cathedral.rotate_clockwise();
    assert_eq!(
        cathedral.shape_rows(),
        layout([
            [false, true, false, false], //
            [true, true, true, true],
            [false, true, false, false]
        ])
    );
    cathedral.rotate_clockwise();
    assert_eq!(
        cathedral.shape_rows(),
        layout([
            [false, true, false], //
            [true, true, true],
            [false, true, false],
            [false, true, false],
        ])
    );
}

#[test]
fn test_counterclockwise_rotation() {
    let mut tavern = Piece::new_tavern(Team::White);
    tavern.rotate_counterclockwise();
    assert_eq!(tavern.shape_rows(), layout([[true]]));
    tavern.rotate_counterclockwise();
    assert_eq!(tavern.shape_rows(), layout([[true]]));
    tavern.rotate_counterclockwise();
    assert_eq!(tavern.shape_rows(), layout([[true]]));
    tavern.rotate_counterclockwise();
    assert_eq!(tavern.shape_rows(), layout([[true]]));

    let mut stable = Piece::new_stable(Team::White);
    stable.rotate_counterclockwise();
    assert_eq!(stable.shape_rows(), layout([[true, true]]));
    stable.rotate_counterclockwise();
    assert_eq!(stable.shape_rows(), layout([[true], [true]]));
    stable.rotate_counterclockwise();
    assert_eq!(stable.shape_rows(), layout([[true, true]]));
    stable.rotate_counterclockwise();
    assert_eq!(stable.shape_rows(), layout([[true], [true]]));

    let mut inn = Piece::new_inn(Team::White);
    inn.rotate_counterclockwise();
    assert_eq!(
        inn.shape_rows(),
        layout([
            [true, false], //
            [true, true]
        ])
    );
    inn.rotate_counterclockwise();
    assert_eq!(
        inn.shape_rows(),
        layout([
            [false, true], //
            [true, true]
        ])
    );
    inn.rotate_counterclockwise();
    assert_eq!(
        inn.shape_rows(),
        layout([
            [true, true], //
            [false, true]
        ])
    );
    inn.rotate_counterclockwise();
    assert_eq!(
        inn.shape_rows(),
        layout([
            [true, true], //
            [true, false]
        ])
    );

    let mut manor = Piece::new_manor(Team::White);
    manor.rotate_counterclockwise();
    assert_eq!(
        manor.shape_rows(),
        layout([
            [true, false], //
            [true, true],
            [true, false]
        ])
    );
    manor.rotate_counterclockwise();
    assert_eq!(
        manor.shape_rows(),
        layout([
            [false, true, false], //
            [true, true, true]
        ])
    );
    manor.rotate_counterclockwise();
    assert_eq!(
        manor.shape_rows(),
        layout([
            [false, true], //
            [true, true],
            [false, true]
        ])
    );
    manor.rotate_counterclockwise();
    assert_eq!(
        manor.shape_rows(),
        layout([
            [true, true, true], //
            [false, true, false]
        ])
    );

    let mut cathedral = Piece::new_cathedral();
    cathedral.rotate_counterclockwise();
    assert_eq!(
        cathedral.shape_rows(),
        layout([
            [false, true, false, false], //
            [true, true, true, true],
            [false, true, false, false]
        ])
    );
    cathedral.rotate_counterclockwise();
    assert_eq!(
        cathedral.shape_rows(),
        layout([
            [false, true, false], //
            [false, true, false],
            [true, true, true],
            [false, true, false],
        ])
    );
    cathedral.rotate_counterclockwise();
    assert_eq!(
        cathedral.shape_rows(),
        layout([
            [false, false, true, false], //
            [true, true, true, true],
            [false, false, true, false]
        ])
    );
    cathedral.rotate_counterclockwise();
    assert_eq!(
        cathedral.shape_rows(),
        layout([
            [false, true, false], //
            [true, true, true],
            [false, true, false],
            [false, true, false],
        ])
    );
}

#[test]
fn every_kind_has_its_footprint() {
    assert_eq!(Piece::new_tavern(Team::Black).shape_rows(), layout([[true]]));
    assert_eq!(Piece::new_stable(Team::Black).shape_rows(), layout([[true], [true]]));
    assert_eq!(Piece::new_inn(Team::Black).shape_rows(), layout([[true, true], [true, false]]));
    assert_eq!(Piece::new_bridge(Team::Black).shape_rows(), layout([[true], [true], [true]]));
    assert_eq!(Piece::new_square(Team::Black).shape_rows(), layout([[true, true], [true, true]]));
    assert_eq!(
        Piece::new_manor(Team::Black).shape_rows(),
        layout([[true, true, true], [false, true, false]])
    );
    assert_eq!(
        Piece::new_infirmary(Team::Black).shape_rows(),
        layout([[false, true, false], [true, true, true], [false, true, false]])
    );
    assert_eq!(
        Piece::new_castle(Team::Black).shape_rows(),
        layout([[true, true, true], [true, false, true]])
    );
    assert_eq!(
        Piece::new_tower(Team::Black).shape_rows(),
        layout([[false, true, true], [true, true, false], [true, false, false]])
    );
    assert_eq!(
        Piece::new_cathedral().shape_rows(),
        layout([
            [false, true, false],
            [true, true, true],
            [false, true, false],
            [false, true, false]
        ])
    );
}

#[test]
fn abbey_and_academy_are_mirrored_between_the_sides() {
    assert_eq!(
        Piece::new_abbey(Team::White).shape_rows(),
        layout([[false, true, true], [true, true, false]])
    );
    assert_eq!(
        Piece::new_abbey(Team::Black).shape_rows(),
        layout([[true, true, false], [false, true, true]])
    );
    assert_eq!(
        Piece::new_academy(Team::White).shape_rows(),
        layout([[false, false, true], [true, true, true], [false, true, false]])
    );
    assert_eq!(
        Piece::new_academy(Team::Black).shape_rows(),
        layout([[true, false, false], [true, true, true], [false, true, false]])
    );
    for (white, black) in [
        (Piece::new_abbey(Team::White), Piece::new_abbey(Team::Black)),
        (Piece::new_academy(Team::White), Piece::new_academy(Team::Black)),
    ] {
        let mirrored: Vec<Vec<bool>> = white
            .shape_rows()
            .into_iter()
            .map(|row| row.into_iter().rev().collect())
            .collect();
        assert_eq!(mirrored, black.shape_rows());
    }
}

#[test]
fn fresh_pieces_carry_their_side_and_point_up() {
    for piece in every_kind() {
        assert_eq!(piece.rotation(), Rotation::UP);
    }
    assert_eq!(Piece::new_inn(Team::White).team(), Team::White);
    assert_eq!(Piece::new_inn(Team::Black).team(), Team::Black);
    assert_eq!(Piece::new_cathedral().team(), Team::Neutral);
}

#[test]
fn four_turns_in_one_direction_restore_every_kind() {
    for mut piece in every_kind() {
        let before = piece.shape_rows();
        let mut seen = Vec::new();
        for _ in 0..4 {
            piece.rotate_clockwise();
            seen.push(piece.rotation());
        }
        assert_eq!(piece.shape_rows(), before);
        assert_eq!(seen, vec![Rotation::RIGHT, Rotation::DOWN, Rotation::LEFT, Rotation::UP]);
        let mut seen = Vec::new();
        for _ in 0..4 {
            piece.rotate_counterclockwise();
            seen.push(piece.rotation());
        }
        assert_eq!(piece.shape_rows(), before);
        assert_eq!(seen, vec![Rotation::LEFT, Rotation::DOWN, Rotation::RIGHT, Rotation::UP]);
    }
}

#[test]
fn opposite_turns_cancel_for_every_kind() {
    for mut piece in every_kind() {
        let before = piece.shape_rows();
        piece.rotate_clockwise();
        piece.rotate_counterclockwise();
        assert_eq!(piece.shape_rows(), before);
        assert_eq!(piece.rotation(), Rotation::UP);
        piece.rotate_counterclockwise();
        piece.rotate_clockwise();
        assert_eq!(piece.shape_rows(), before);
        assert_eq!(piece.rotation(), Rotation::UP);
    }
}

#[test]
fn a_turn_exchanges_rows_and_columns() {
    let mut cathedral = Piece::new_cathedral();
    cathedral.rotate_clockwise();
    let rows = cathedral.shape_rows();
    assert_eq!(rows.len(), 3);
    assert!(rows.iter().all(|row| row.len() == 4));
}

#[test]
fn rotation_marks_cycle() {
    assert_eq!(Rotation::UP.rotated_clockwise(), Rotation::RIGHT);
    assert_eq!(Rotation::RIGHT.rotated_clockwise(), Rotation::DOWN);
    assert_eq!(Rotation::DOWN.rotated_clockwise(), Rotation::LEFT);
    assert_eq!(Rotation::LEFT.rotated_clockwise(), Rotation::UP);
    assert_eq!(Rotation::UP.rotated_counterclockwise(), Rotation::LEFT);
    assert_eq!(Rotation::LEFT.rotated_counterclockwise(), Rotation::DOWN);
    assert_eq!(Rotation::DOWN.rotated_counterclockwise(), Rotation::RIGHT);
    assert_eq!(Rotation::RIGHT.rotated_counterclockwise(), Rotation::UP);
    for mark in [Rotation::UP, Rotation::DOWN, Rotation::LEFT, Rotation::RIGHT] {
        assert_eq!(mark.rotated_clockwise().rotated_counterclockwise(), mark);
    }
}

#[test]
fn occupied_coords_come_row_after_row() {
    assert_eq!(Piece::new_inn(Team::White).occupied_coords_iter(), cells([(0, 0), (0, 1), (1, 0)]));
    assert_eq!(
        Piece::new_cathedral().occupied_coords_iter(),
        cells([(0, 1), (1, 0), (1, 1), (1, 2), (2, 1), (3, 1)])
    );
    assert_eq!(
        Piece::new_tower(Team::Black).occupied_coords_iter(),
        cells([(0, 1), (0, 2), (1, 0), (1, 1), (2, 0)])
    );
    let mut manor = Piece::new_manor(Team::White);
    manor.rotate_clockwise();
    assert_eq!(manor.occupied_coords_iter(), cells([(0, 1), (1, 0), (1, 1), (2, 1)]));
    manor.rotate_counterclockwise();
    manor.rotate_counterclockwise();
    assert_eq!(manor.occupied_coords_iter(), cells([(0, 0), (1, 0), (1, 1), (2, 0)]));
}

#[test]
fn a_placed_piece_covers_its_cells_shifted_by_its_position() {
    let placed: Piece<Placed> = Piece::new_abbey(Team::White).placed_at(Position { x: 4, y: 6 });
    assert_eq!(placed.position(), Position { x: 4, y: 6 });
    assert_eq!(placed.team(), Team::White);
    assert_eq!(placed.occupied_coords_iter(), cells([(0, 1), (0, 2), (1, 0), (1, 1)]));
    assert_eq!(placed.occupied_positions_iter(), cells([(4, 7), (4, 8), (5, 6), (5, 7)]));
    assert_eq!(placed.anchor(), Position { x: 4, y: 7 });
}

#[test]
fn placing_and_releasing_keep_shape_side_and_rotation() {
    let mut tower = Piece::new_tower(Team::Black);
    tower.rotate_clockwise();
    let rows = tower.shape_rows();
    let placed = tower.placed_at(Position { x: 2, y: 3 });
    assert_eq!(placed.shape_rows(), rows);
    assert_eq!(placed.rotation(), Rotation::RIGHT);
    let released = placed.released();
    assert_eq!(released.shape_rows(), rows);
    assert_eq!(released.rotation(), Rotation::RIGHT);
    assert_eq!(released.team(), Team::Black);
}

#[test]
fn a_copy_of_a_piece_is_the_same_piece() {
    let mut castle = Piece::new_castle(Team::White);
    castle.rotate_counterclockwise();
    let copy = castle.clone();
    assert_eq!(copy, castle);
    assert_eq!(copy.shape_rows(), layout([[true, true], [true, false], [true, true]]));
    assert_eq!(copy.rotation(), Rotation::LEFT);
    castle.rotate_clockwise();
    assert_eq!(copy.shape_rows(), layout([[true, true], [true, false], [true, true]]));
    assert_ne!(copy, castle);
}

#[test]
fn the_largest_position_holds_a_single_cell_piece() {
    let placed = Piece::new_tavern(Team::White).placed_at(Position { x: usize::MAX, y: usize::MAX });
    assert_eq!(placed.anchor(), Position { x: usize::MAX, y: usize::MAX });
}
