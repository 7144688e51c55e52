use std::collections::HashSet;

use cathedral::board::Board;
use cathedral::piece::Piece;
use cathedral::position::Position;
use cathedral::Team;

fn set_of(positions: &[Position]) -> HashSet<Position> {
    positions.iter().copied().collect()
}

fn set_from<const N: usize>(pairs: [(usize, usize); N]) -> HashSet<Position> {
    pairs.into_iter().map(Position::from).collect()
}

fn sizes_largest_first(regions: &[Vec<Position>]) -> Vec<usize> {
    let mut sizes: Vec<usize> = regions.iter().map(Vec::len).collect();
    sizes.sort_unstable_by(|a, b| b.cmp(a));
    sizes
}

#[test]
fn test_find_tile_sets() {
    let mut board = Board::default();
    let piece = Piece::new_inn(Team::White);
    board.place_piece(piece.clone(), (8, 8).into());
    let piece = piece.placed_at((8, 8).into());

    let tile_sets = board.find_tile_sets(&piece);
    assert_eq!(tile_sets.len(), 2);
    assert_eq!(sizes_largest_first(&tile_sets), &[96, 1]);
}

#[test]
fn the_corner_behind_the_inn_is_a_region_of_its_own() {
    let mut board = Board::default();
    let placed = board.place_piece(Piece::new_inn(Team::White), Position { x: 8, y: 8 });
    let regions = board.find_tile_sets(&placed);
    let corner: Vec<&Vec<Position>> = regions.iter().filter(|region| region.len() == 1).collect();
    assert_eq!(corner.len(), 1);
    assert_eq!(corner[0], &vec![Position { x: 9, y: 9 }]);
    let open: Vec<&Vec<Position>> = regions.iter().filter(|region| region.len() == 96).collect();
    assert_eq!(open.len(), 1);
    let open = set_of(open[0]);
    assert_eq!(open.len(), 96);
    for cell in [(8, 8), (8, 9), (9, 8), (9, 9)] {
        assert!(!open.contains(&Position::from(cell)));
    }
}

#[test]
fn regions_hold_each_cell_once_and_share_none() {
    let mut board = Board::with_size(7);
    board.place_piece(Piece::new_bridge(Team::Black), Position { x: 0, y: 3 });
    board.place_piece(Piece::new_bridge(Team::Black), Position { x: 3, y: 3 });
    let wall = board.place_piece(Piece::new_tavern(Team::Black), Position { x: 6, y: 3 });
    // Column 3 is built over from top to bottom: two halves of 21 tiles each.
    let regions = board.find_tile_sets(&wall);
    assert_eq!(sizes_largest_first(&regions), vec![21, 21]);
    let mut seen = HashSet::new();
    for region in regions.iter() {
        assert_eq!(set_of(region).len(), region.len());
        for cell in region {
            assert!(seen.insert(*cell));
            assert_ne!(cell.y, 3);
        }
    }
    assert_eq!(seen.len(), 42);
    for region in regions.iter() {
        let left = region.iter().all(|cell| cell.y < 3);
        let right = region.iter().all(|cell| cell.y > 3);
        assert!(left || right);
    }
}

#[test]
fn a_region_starts_with_a_seed() {
    let mut board = Board::default();
    let placed = board.place_piece(Piece::new_square(Team::White), Position { x: 4, y: 4 });
    let seeds = set_of(&board.adjacent_capturable_positions_for_piece(&placed));
    let regions = board.find_tile_sets(&placed);
    assert_eq!(regions.len(), 1);
    assert_eq!(regions[0].len(), 96);
    assert!(seeds.contains(&regions[0][0]));
    for seed in seeds.iter() {
        assert!(regions[0].contains(seed));
    }
}

#[test]
fn seeds_are_the_capturable_cells_around_the_piece() {
    let mut board = Board::with_size(5);
    let own = board.place_piece(Piece::new_tavern(Team::White), Position { x: 1, y: 1 });
    board.place_piece(Piece::new_tavern(Team::White), Position { x: 0, y: 0 });
    board.place_piece(Piece::new_tavern(Team::Black), Position { x: 0, y: 1 });
    board.place_piece(Piece::new_cathedral(), Position { x: 1, y: 1 });
    board.award_tile(Position { x: 1, y: 0 }, Team::White).expect("open ground");
    board.award_tile(Position { x: 0, y: 2 }, Team::Black).expect("open ground");
    // Around (1, 1): (0, 0) is White's building, (0, 1) Black's building,
    // (0, 2) Black's ground, (1, 0) White's ground, (1, 2) and (2, 1) lie
    // under the cathedral, (2, 0) is open, (2, 2) lies under the cathedral.
    let seeds = board.adjacent_capturable_positions_for_piece(&own);
    assert_eq!(set_of(&seeds).len(), seeds.len());
    assert_eq!(set_of(&seeds), set_from([(0, 1), (0, 2), (1, 0), (2, 0)]));
}

#[test]
fn seeds_of_a_piece_in_the_corner_stay_on_the_board() {
    let mut board = Board::with_size(3);
    let placed = board.place_piece(Piece::new_tavern(Team::Black), Position { x: 0, y: 0 });
    let seeds = board.adjacent_capturable_positions_for_piece(&placed);
    assert_eq!(set_of(&seeds), set_from([(0, 1), (1, 0), (1, 1)]));
    let regions = board.find_tile_sets(&placed);
    assert_eq!(regions.len(), 1);
    assert_eq!(regions[0].len(), 8);
}

#[test]
fn a_piece_without_free_neighbours_has_no_region() {
    let mut board = Board::with_size(1);
    let placed = board.place_piece(Piece::new_tavern(Team::White), Position { x: 0, y: 0 });
    assert!(board.adjacent_capturable_positions_for_piece(&placed).is_empty());
    assert!(board.find_tile_sets(&placed).is_empty());
}

#[test]
fn a_region_runs_over_buildings_of_the_other_side_only() {
    let mut board = Board::with_size(3);
    // Row 1 is built over: by Black at its start, by White on the rest.
    board.place_piece(Piece::new_tavern(Team::Black), Position { x: 1, y: 0 });
    board.place_piece(Piece::new_tavern(Team::White), Position { x: 1, y: 2 });
    board.place_piece(Piece::new_tavern(Team::White), Position { x: 1, y: 1 });

    let from_top = board.find_tile_set(Position { x: 0, y: 2 }, Team::White);
    assert_eq!(from_top[0], Position { x: 0, y: 2 });
    assert_eq!(
        set_of(&from_top),
        set_from([(0, 0), (0, 1), (0, 2), (1, 0), (2, 0), (2, 1), (2, 2)])
    );

    let for_black = board.find_tile_set(Position { x: 0, y: 0 }, Team::Black);
    assert_eq!(
        set_of(&for_black),
        set_from([(0, 0), (0, 1), (0, 2), (1, 1), (1, 2), (2, 0), (2, 1), (2, 2)])
    );

    let for_nobody = board.find_tile_set(Position { x: 0, y: 1 }, Team::Neutral);
    assert_eq!(set_of(&for_nobody), set_from([(0, 0), (0, 1), (0, 2)]));
}

#[test]
fn a_region_counts_its_start_whatever_stands_there() {
    let mut board = Board::with_size(3);
    board.place_piece(Piece::new_tavern(Team::White), Position { x: 1, y: 1 });
    let region = board.find_tile_set(Position { x: 1, y: 1 }, Team::White);
    assert_eq!(region[0], Position { x: 1, y: 1 });
    assert_eq!(region.len(), 9);
    let outside = board.find_tile_set(Position { x: 3, y: 3 }, Team::White);
    assert_eq!(outside[0], Position { x: 3, y: 3 });
    assert_eq!(outside.len(), 9);
    let far = board.find_tile_set(Position { x: 7, y: 7 }, Team::White);
    assert_eq!(far, vec![Position { x: 7, y: 7 }]);
}

#[test]
fn capturable_tiles_are_open_ground_and_buildings_of_the_other_side() {
    let mut board = Board::with_size(5);
    board.place_piece(Piece::new_tavern(Team::White), Position { x: 0, y: 0 });
    board.place_piece(Piece::new_tavern(Team::Black), Position { x: 0, y: 1 });
    board.award_tile(Position { x: 0, y: 2 }, Team::White).expect("open ground");
    board.award_tile(Position { x: 0, y: 3 }, Team::Black).expect("open ground");
    // The cathedral at (1, 1) covers (1, 2), (2, 1), (2, 2), (2, 3), (3, 2), (4, 2).
    board.place_piece(Piece::new_cathedral(), Position { x: 1, y: 1 });

    let white_building = Position { x: 0, y: 0 };
    let black_building = Position { x: 0, y: 1 };
    let white_ground = Position { x: 0, y: 2 };
    let black_ground = Position { x: 0, y: 3 };
    let open_ground = Position { x: 4, y: 4 };
    let cathedral = Position { x: 2, y: 2 };
    let outside = Position { x: 5, y: 0 };

    assert!(!board.is_position_capturable(white_building, Team::White));
    assert!(board.is_position_capturable(white_building, Team::Black));
    assert!(board.is_position_capturable(black_building, Team::White));
    assert!(!board.is_position_capturable(black_building, Team::Black));
    for team in [Team::White, Team::Black, Team::Neutral] {
        assert!(board.is_position_capturable(white_ground, team));
        assert!(board.is_position_capturable(black_ground, team));
        assert!(board.is_position_capturable(open_ground, team));
        assert!(!board.is_position_capturable(cathedral, team));
        assert!(!board.is_position_capturable(outside, team));
    }
    assert!(!board.is_position_capturable(white_building, Team::Neutral));
}

#[test]
fn a_border_is_formed_by_buildings_of_the_side_itself() {
    let mut board = Board::with_size(3);
    board.place_piece(Piece::new_tavern(Team::White), Position { x: 1, y: 1 });
    board.award_tile(Position { x: 0, y: 0 }, Team::White).expect("open ground");
    assert!(board.does_position_form_border(Position { x: 1, y: 1 }, Team::White));
    assert!(!board.does_position_form_border(Position { x: 1, y: 1 }, Team::Black));
    assert!(!board.does_position_form_border(Position { x: 0, y: 0 }, Team::White));
    assert!(!board.does_position_form_border(Position { x: 2, y: 2 }, Team::White));
    assert!(!board.does_position_form_border(Position { x: 3, y: 3 }, Team::White));
}

#[test]
fn near_wall_marks_the_first_row_and_column_and_the_size() {
    let board = Board::with_size(4);
    assert!(board.near_wall(Position { x: 0, y: 2 }));
    assert!(board.near_wall(Position { x: 2, y: 0 }));
    assert!(board.near_wall(Position { x: 4, y: 2 }));
    assert!(board.near_wall(Position { x: 2, y: 4 }));
    assert!(!board.near_wall(Position { x: 1, y: 1 }));
    assert!(!board.near_wall(Position { x: 3, y: 3 }));
    assert!(!board.near_wall(Position { x: 5, y: 5 }));
}
