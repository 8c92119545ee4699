use merge_grid::lane::swipe_range;
use merge_grid::tile::{Direction, Position, Tile};

fn lane_tile(x: u32, y: u32, value: u32) -> Tile {
    Tile { position: Position { x, y }, value, merged_this_move: false }
}

fn summary(tiles: &[Tile]) -> Vec<(u32, u32, u32, bool)> {
    tiles.iter().map(|t| (t.position.x, t.position.y, t.value, t.merged_this_move)).collect()
}

#[test]
fn swipe_range_of_no_tiles() {
    let mut lane: Vec<Tile> = Vec::new();
    assert!(!swipe_range(Direction::Left, &mut lane));
    assert!(lane.is_empty());
}

#[test]
fn swipe_range_left_marks_merged_tile() {
    let mut lane = vec![lane_tile(0, 0, 1), lane_tile(1, 0, 1), lane_tile(2, 0, 2)];
    assert!(swipe_range(Direction::Left, &mut lane));
    assert_eq!(summary(&lane), vec![(0, 0, 2, true), (1, 0, 2, false)]);
}

#[test]
fn swipe_range_right_lists_from_the_wall() {
    let mut lane = vec![lane_tile(0, 3, 1), lane_tile(1, 3, 2), lane_tile(3, 3, 2)];
    assert!(swipe_range(Direction::Right, &mut lane));
    assert_eq!(summary(&lane), vec![(3, 3, 3, true), (2, 3, 1, false)]);
}

#[test]
fn swipe_range_up_and_down() {
    let mut lane = vec![lane_tile(1, 0, 4), lane_tile(1, 2, 4), lane_tile(1, 3, 4)];
    assert!(swipe_range(Direction::Up, &mut lane));
    assert_eq!(summary(&lane), vec![(1, 3, 5, true), (1, 2, 4, false)]);

    let mut lane = vec![lane_tile(1, 0, 4), lane_tile(1, 2, 4), lane_tile(1, 3, 4)];
    assert!(swipe_range(Direction::Down, &mut lane));
    assert_eq!(summary(&lane), vec![(1, 0, 5, true), (1, 1, 4, false)]);
}

#[test]
fn swipe_range_reports_no_change_for_settled_lane() {
    let mut lane = vec![lane_tile(0, 2, 3), lane_tile(1, 2, 1), lane_tile(2, 2, 3)];
    assert!(!swipe_range(Direction::Left, &mut lane));
    assert_eq!(summary(&lane), vec![(0, 2, 3, false), (1, 2, 1, false), (2, 2, 3, false)]);

    let mut lane = vec![lane_tile(1, 2, 3), lane_tile(2, 2, 1), lane_tile(3, 2, 3)];
    assert!(!swipe_range(Direction::Right, &mut lane));
    assert_eq!(summary(&lane), vec![(3, 2, 3, false), (2, 2, 1, false), (1, 2, 3, false)]);
}

#[test]
fn swipe_range_reports_move_without_merge() {
    let mut lane = vec![lane_tile(0, 2, 3), lane_tile(2, 2, 1)];
    assert!(swipe_range(Direction::Left, &mut lane));
    assert_eq!(summary(&lane), vec![(0, 2, 3, false), (1, 2, 1, false)]);
}

#[test]
fn swipe_range_merges_two_pairs() {
    let mut lane =
        vec![lane_tile(0, 0, 7), lane_tile(1, 0, 7), lane_tile(2, 0, 7), lane_tile(3, 0, 7)];
    assert!(swipe_range(Direction::Left, &mut lane));
    assert_eq!(summary(&lane), vec![(0, 0, 8, true), (1, 0, 8, true)]);
}
