use halite_map::cell::{ShipId, Structure};
use halite_map::game_map::GameMap;
use halite_map::position::{Direction, Position};
use halite_map::ship::{Entity, Ship};

fn zero_grid(width: usize, height: usize) -> GameMap {
    let rows = vec![vec![0u32; width]; height];
    GameMap::generate(width, height, rows)
}

#[test]
fn normalize_is_idempotent_and_in_range() {
    let map = zero_grid(5, 5);
    let p = Position { x: 7, y: -3 };
    let n = map.normalize(&p);
    assert_eq!(n, Position { x: 2, y: 2 });
    assert_eq!(map.normalize(&n), n);
    assert!(n.x >= 0 && (n.x as usize) < map.width);
    assert!(n.y >= 0 && (n.y as usize) < map.height);
}

#[test]
fn normalize_handles_large_negatives() {
    let map = zero_grid(10, 7);
    let n = map.normalize(&Position { x: -23, y: -1 });
    assert_eq!(n, Position { x: 7, y: 6 });
    assert_eq!(map.normalize(&n), n);
}

#[test]
fn distance_wraps_and_is_symmetric() {
    let map = zero_grid(10, 10);
    let a = Position { x: 0, y: 0 };
    let b = Position { x: 9, y: 0 };
    assert_eq!(map.calculate_distance(&a, &b), 1);
    assert_eq!(map.calculate_distance(&b, &a), 1);
}

#[test]
fn distance_zero_exactly_at_same_normalized_cell() {
    let map = zero_grid(6, 4);
    let a = Position { x: 1, y: 2 };
    let b = Position { x: 7, y: -2 };
    assert_eq!(map.calculate_distance(&a, &b), 0);
    let c = Position { x: 2, y: 2 };
    assert!(map.calculate_distance(&a, &c) > 0);
}

#[test]
fn unsafe_moves_skips_equal_axes() {
    let map = zero_grid(10, 10);
    let same = map.get_unsafe_moves(&Position { x: 2, y: 2 }, &Position { x: 2, y: 2 });
    assert!(same.is_empty());

    let vertical = map.get_unsafe_moves(&Position { x: 2, y: 0 }, &Position { x: 2, y: 5 });
    assert_eq!(vertical.len(), 1);
    assert!(vertical[0] == Direction::North || vertical[0] == Direction::South);

    let both = map.get_unsafe_moves(&Position { x: 0, y: 0 }, &Position { x: 3, y: 4 });
    assert_eq!(both, vec![Direction::East, Direction::South]);
}

#[test]
fn unsafe_moves_prefers_the_wrapped_path() {
    let map = zero_grid(10, 10);
    let moves = map.get_unsafe_moves(&Position { x: 0, y: 0 }, &Position { x: 9, y: 0 });
    assert_eq!(moves, vec![Direction::West]);
}

#[test]
fn naive_navigate_claims_cell_once() {
    let mut map = zero_grid(5, 5);
    let first = Ship { id: ShipId(1), position: Position { x: 0, y: 0 } };
    let second = Ship { id: ShipId(2), position: Position { x: 2, y: 0 } };
    let destination = Position { x: 1, y: 0 };

    let d1 = map.naive_navigate(&first, &destination);
    assert_eq!(d1, Direction::East);
    assert!(map.at_position(&destination).is_occupied());

    let d2 = map.naive_navigate(&second, &destination);
    assert_eq!(d2, Direction::Still);
}

#[test]
fn naive_navigate_avoids_structures() {
    let mut map = zero_grid(5, 5);
    map.at_position_mut(&Position { x: 1, y: 0 }).structure = Some(Structure::Dropoff);
    let ship = Ship { id: ShipId(1), position: Position { x: 0, y: 0 } };
    let d = map.naive_navigate(&ship, &Position { x: 1, y: 0 });
    assert_eq!(d, Direction::Still);
}

#[test]
fn naive_navigate_standing_on_destination_stays() {
    let mut map = zero_grid(5, 5);
    let ship = Ship { id: ShipId(1), position: Position { x: 3, y: 3 } };
    let d = map.naive_navigate(&ship, &Position { x: 3, y: 3 });
    assert_eq!(d, Direction::Still);
    assert!(!map.at_position(&ship.position).is_occupied());
}

#[test]
fn at_entity_resolves_through_normalization() {
    let mut rows = vec![vec![0u32; 5]; 5];
    rows[2][2] = 77;
    let map = GameMap::generate(5, 5, rows);
    let ship = Ship { id: ShipId(3), position: Position { x: 7, y: -3 } };
    assert_eq!(ship.position(), Position { x: 7, y: -3 });
    assert_eq!(map.at_entity(&ship).halite, 77);
}

#[test]
fn at_entity_mut_writes_through_normalization() {
    let mut map = zero_grid(5, 5);
    let ship = Ship { id: ShipId(4), position: Position { x: -1, y: 0 } };
    map.at_entity_mut(&ship).halite = 9;
    assert_eq!(map.at_position(&Position { x: 4, y: 0 }).halite, 9);
}

#[test]
fn most_halite_prefers_first_seen_on_ties() {
    // Neighbors of (2, 2), scanned north, south, east, west.
    let mut rows = vec![vec![0u32; 5]; 5];
    rows[1][2] = 5; // north
    rows[3][2] = 20; // south
    rows[2][1] = 20; // west, ties with south but is seen later
    let mut map = GameMap::generate(5, 5, rows);
    let best = map.most_halite_near_ship_direction(&Position { x: 2, y: 2 });
    assert_eq!(best, Some(Direction::South));
}

#[test]
fn most_halite_requires_more_than_threshold() {
    let mut rows = vec![vec![0u32; 5]; 5];
    rows[1][2] = 10; // exactly the threshold does not qualify
    let mut map = GameMap::generate(5, 5, rows);
    assert_eq!(map.most_halite_near_ship_direction(&Position { x: 2, y: 2 }), None);
}

#[test]
fn most_halite_ignores_occupied_neighbors() {
    let mut rows = vec![vec![0u32; 5]; 5];
    rows[1][2] = 50; // north, will be occupied
    rows[3][2] = 30; // south
    let mut map = GameMap::generate(5, 5, rows);
    map.at_position_mut(&Position { x: 2, y: 1 }).mark_unsafe(ShipId(9));
    let best = map.most_halite_near_ship_direction(&Position { x: 2, y: 2 });
    assert_eq!(best, Some(Direction::South));
}

#[test]
fn rich_halite_walks_to_nearest_axis_cell() {
    let mut rows = vec![vec![0u32; 7]; 7];
    rows[3][6] = 30; // east of (4, 3) at two steps
    rows[3][2] = 30; // west of (4, 3) at two steps, east wins the tie
    let mut map = GameMap::generate(7, 7, rows);
    let d = map.move_towards_rich_halite(&Position { x: 4, y: 3 });
    assert_eq!(d, Direction::East);
}

#[test]
fn rich_halite_disqualifies_occupied_first_step() {
    let mut rows = vec![vec![0u32; 7]; 7];
    rows[3][6] = 30;
    rows[3][2] = 30;
    let mut map = GameMap::generate(7, 7, rows);
    map.at_position_mut(&Position { x: 5, y: 3 }).mark_unsafe(ShipId(8));
    let d = map.move_towards_rich_halite(&Position { x: 4, y: 3 });
    assert_eq!(d, Direction::West);
}

#[test]
fn rich_halite_sentinel_lets_later_directions_overwrite() {
    // The starting cell is already rich, so every direction reports
    // distance 0 and the sentinel comparison keeps overwriting: the last
    // cardinal scanned wins.
    let mut rows = vec![vec![0u32; 7]; 7];
    rows[3][3] = 25;
    let mut map = GameMap::generate(7, 7, rows);
    let d = map.move_towards_rich_halite(&Position { x: 3, y: 3 });
    assert_eq!(d, Direction::West);
}

#[test]
fn rich_halite_returns_still_when_nothing_qualifies() {
    let mut map = zero_grid(7, 7);
    let d = map.move_towards_rich_halite(&Position { x: 0, y: 0 });
    assert_eq!(d, Direction::Still);
}

#[test]
fn dropoffs_tie_break_by_ascending_coordinates() {
    // All scores equal, so the order falls back to x, then y.
    let mut map = zero_grid(5, 5);
    let sites = map.find_suitable_dropoffs();
    assert_eq!(sites, vec![Position { x: 0, y: 0 }, Position { x: 0, y: 1 }]);
}

#[test]
fn dropoffs_pick_the_richest_windows() {
    // A single spike at (4, 4): cells whose 6x6 window (offsets -3..2)
    // covers it score 100, the rest 0. The best-scoring cells with the
    // smallest coordinates are (2, 2) and (2, 3).
    let mut rows = vec![vec![0u32; 8]; 8];
    rows[4][4] = 100;
    let mut map = GameMap::generate(8, 8, rows);
    let sites = map.find_suitable_dropoffs();
    assert_eq!(sites.len(), 2);
    assert_eq!(sites[0], Position { x: 2, y: 2 });
    assert_eq!(sites[1], Position { x: 2, y: 3 });
}

#[test]
fn dropoffs_on_tiny_grid_return_every_cell() {
    let mut map = zero_grid(1, 1);
    let sites = map.find_suitable_dropoffs();
    assert_eq!(sites, vec![Position { x: 0, y: 0 }]);
}

#[test]
fn end_to_end_small_grid_example() {
    let map = zero_grid(5, 5);
    assert_eq!(map.normalize(&Position { x: 5, y: 0 }), Position { x: 0, y: 0 });
    assert_eq!(
        map.calculate_distance(&Position { x: 0, y: 0 }, &Position { x: 4, y: 0 }),
        1
    );
}

#[test]
fn turn_refresh_overwrites_named_cells_and_clears_occupants() {
    let mut map = zero_grid(3, 3);
    map.at_position_mut(&Position { x: 0, y: 2 }).mark_unsafe(ShipId(5));
    assert!(map.at_position(&Position { x: 0, y: 2 }).is_occupied());

    map.update(&vec![(1usize, 1usize, 50u32)]);

    for x in 0..3i32 {
        for y in 0..3i32 {
            let cell = map.at_position(&Position { x, y });
            let expected = if x == 1 && y == 1 { 50 } else { 0 };
            assert_eq!(cell.halite, expected);
            assert!(cell.ship.is_none());
        }
    }
}

#[test]
fn turn_refresh_last_update_wins() {
    let mut map = zero_grid(3, 3);
    map.update(&vec![(1usize, 1usize, 50u32), (1usize, 1usize, 7u32)]);
    assert_eq!(map.at_position(&Position { x: 1, y: 1 }).halite, 7);
}

#[test]
fn generate_lays_out_rows_by_y() {
    let rows = vec![vec![1u32, 2u32], vec![3u32, 4u32], vec![5u32, 6u32]];
    let map = GameMap::generate(2, 3, rows);
    assert_eq!(map.width, 2);
    assert_eq!(map.height, 3);
    assert_eq!(map.at_position(&Position { x: 0, y: 0 }).halite, 1);
    assert_eq!(map.at_position(&Position { x: 1, y: 0 }).halite, 2);
    assert_eq!(map.at_position(&Position { x: 0, y: 2 }).halite, 5);
    assert_eq!(map.at_position(&Position { x: 1, y: 2 }).halite, 6);
}

#[test]
fn cardinals_come_in_scan_order() {
    assert_eq!(
        Direction::get_all_cardinals(),
        vec![Direction::North, Direction::South, Direction::East, Direction::West]
    );
}

#[test]
fn occupied_means_ship_or_structure() {
    let mut map = zero_grid(4, 4);
    assert!(!map.at_position(&Position { x: 0, y: 0 }).is_occupied());
    map.at_position_mut(&Position { x: 0, y: 0 }).mark_unsafe(ShipId(1));
    assert!(map.at_position(&Position { x: 0, y: 0 }).is_occupied());
    map.at_position_mut(&Position { x: 1, y: 1 }).structure = Some(Structure::Shipyard);
    assert!(map.at_position(&Position { x: 1, y: 1 }).is_occupied());
    assert!(map.at_position(&Position { x: 1, y: 1 }).has_structure());
}
