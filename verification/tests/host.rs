use merge_grid::host::{colour_slot, direction_for_keys, PALETTE_SIZE};
use merge_grid::tile::{Direction, Position};

#[test]
fn keys_map_to_directions() {
    assert_eq!(direction_for_keys(true, false, false, false), Some(Direction::Up));
    assert_eq!(direction_for_keys(false, true, false, false), Some(Direction::Left));
    assert_eq!(direction_for_keys(false, false, true, false), Some(Direction::Down));
    assert_eq!(direction_for_keys(false, false, false, true), Some(Direction::Right));
    assert_eq!(direction_for_keys(false, false, false, false), None);
}

#[test]
fn first_key_wins() {
    assert_eq!(direction_for_keys(true, true, true, true), Some(Direction::Up));
    assert_eq!(direction_for_keys(false, true, true, true), Some(Direction::Left));
    assert_eq!(direction_for_keys(false, false, true, true), Some(Direction::Down));
}

#[test]
fn colours_stop_at_last_slot() {
    for value in 0..PALETTE_SIZE {
        assert_eq!(colour_slot(value), value as usize);
    }
    assert_eq!(colour_slot(9), 9);
    assert_eq!(colour_slot(10), 9);
    assert_eq!(colour_slot(u32::MAX), 9);
}

#[test]
fn lanes_are_rows_or_columns() {
    let p = Position { x: 1, y: 2 };
    assert_eq!(p.lane(Direction::Left), 2);
    assert_eq!(p.lane(Direction::Right), 2);
    assert_eq!(p.lane(Direction::Up), 1);
    assert_eq!(p.lane(Direction::Down), 1);
    assert_eq!(p.coord(Direction::Left), 1);
    assert_eq!(p.coord(Direction::Up), 2);
    assert!(p.on_grid());
    assert!(!Position { x: 4, y: 0 }.on_grid());
    assert!(!Position { x: 0, y: 4 }.on_grid());
}

#[test]
fn positions_count_from_the_wall() {
    assert_eq!(Position::at(Direction::Left, 2, 1), Position { x: 1, y: 2 });
    assert_eq!(Position::at(Direction::Right, 2, 1), Position { x: 2, y: 2 });
    assert_eq!(Position::at(Direction::Down, 3, 0), Position { x: 3, y: 0 });
    assert_eq!(Position::at(Direction::Up, 3, 0), Position { x: 3, y: 3 });
    assert_eq!(Direction::Left.lane_length(), 4);
    assert_eq!(Direction::Up.lane_length(), 4);
}
