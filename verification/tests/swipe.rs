use merge_grid::grid::Grid;
use merge_grid::tile::{Direction, Position, Tile, HEIGHT, WIDTH};

fn tile(x: u32, y: u32, value: u32) -> Tile {
    Tile { position: Position { x, y }, value, merged_this_move: false }
}

fn grid_of(cells: &[(u32, u32, u32)]) -> Grid {
    Grid::from_tiles(cells.iter().map(|&(x, y, v)| tile(x, y, v)).collect()).unwrap()
}

fn cells(grid: &Grid) -> Vec<(u32, u32, u32)> {
    let mut all: Vec<(u32, u32, u32)> =
        grid.snapshot().iter().map(|t| (t.position.x, t.position.y, t.value)).collect();
    all.sort();
    all
}

fn mass(grid: &Grid) -> u64 {
    grid.snapshot().iter().map(|t| 1u64 << t.value).sum()
}

const DIRECTIONS: [Direction; 4] =
    [Direction::Up, Direction::Down, Direction::Left, Direction::Right];

#[test]
fn swipe_left_merges_first_pair_only() {
    let mut grid = grid_of(&[(0, 0, 1), (1, 0, 1), (2, 0, 2)]);
    let result = grid.apply_swipe(Direction::Left);
    assert!(result.changed);
    assert_eq!(cells(&grid), vec![(0, 0, 2), (1, 0, 2)]);
    assert!(grid.snapshot().iter().all(|t| !t.merged_this_move));
}

#[test]
fn swipe_of_empty_grid_changes_nothing() {
    for dir in DIRECTIONS {
        let mut grid = Grid::new();
        let result = grid.apply_swipe(dir);
        assert!(!result.changed);
        assert_eq!(grid.len(), 0);
        assert!(!grid.is_terminal());
    }
}

#[test]
fn swipe_orders_tiles_given_in_any_order() {
    let mut grid = grid_of(&[(1, 0, 1), (0, 0, 2)]);
    let result = grid.apply_swipe(Direction::Left);
    assert!(!result.changed);
    assert_eq!(cells(&grid), vec![(0, 0, 2), (1, 0, 1)]);

    let mut grid = grid_of(&[(3, 2, 5), (0, 2, 4), (2, 2, 5), (1, 2, 4)]);
    let result = grid.apply_swipe(Direction::Left);
    assert!(result.changed);
    assert_eq!(cells(&grid), vec![(0, 2, 5), (1, 2, 6)]);
}

#[test]
fn swipe_keeps_rows_apart() {
    let mut grid = grid_of(&[(0, 0, 1), (3, 1, 1), (2, 0, 1), (1, 1, 2), (3, 3, 7)]);
    let result = grid.apply_swipe(Direction::Left);
    assert!(result.changed);
    assert_eq!(cells(&grid), vec![(0, 0, 2), (0, 1, 2), (0, 3, 7), (1, 1, 1)]);
}

#[test]
fn swipe_keeps_columns_apart() {
    let mut grid = grid_of(&[(0, 0, 1), (1, 0, 1), (0, 3, 1), (1, 2, 3)]);
    let result = grid.apply_swipe(Direction::Down);
    assert!(result.changed);
    assert_eq!(cells(&grid), vec![(0, 0, 2), (1, 0, 1), (1, 1, 3)]);
}

#[test]
fn swipe_right_packs_against_far_wall() {
    let mut grid = grid_of(&[(0, 1, 3), (1, 1, 3), (2, 1, 3)]);
    let result = grid.apply_swipe(Direction::Right);
    assert!(result.changed);
    assert_eq!(cells(&grid), vec![(2, 1, 3), (3, 1, 4)]);
}

#[test]
fn swipe_up_packs_against_top_wall() {
    let mut grid = grid_of(&[(2, 0, 0), (2, 1, 0), (2, 3, 1)]);
    let result = grid.apply_swipe(Direction::Up);
    assert!(result.changed);
    assert_eq!(cells(&grid), vec![(2, 2, 1), (2, 3, 1)]);
}

#[test]
fn swipe_down_packs_against_bottom_wall() {
    let mut grid = grid_of(&[(2, 1, 0), (2, 2, 0), (2, 3, 1)]);
    let result = grid.apply_swipe(Direction::Down);
    assert!(result.changed);
    assert_eq!(cells(&grid), vec![(2, 0, 1), (2, 1, 1)]);
}

#[test]
fn merged_tile_does_not_merge_again() {
    let mut grid = grid_of(&[(0, 0, 1), (1, 0, 1), (2, 0, 1), (3, 0, 1)]);
    assert!(grid.apply_swipe(Direction::Left).changed);
    assert_eq!(cells(&grid), vec![(0, 0, 2), (1, 0, 2)]);

    let mut grid = grid_of(&[(0, 0, 2), (1, 0, 2), (2, 0, 2)]);
    assert!(grid.apply_swipe(Direction::Left).changed);
    assert_eq!(cells(&grid), vec![(0, 0, 3), (1, 0, 2)]);

    let mut grid = grid_of(&[(0, 0, 2), (1, 0, 2), (2, 0, 2)]);
    assert!(grid.apply_swipe(Direction::Right).changed);
    assert_eq!(cells(&grid), vec![(2, 0, 2), (3, 0, 3)]);
}

#[test]
fn merge_partner_is_neighbour_in_packed_lane() {
    let mut grid = grid_of(&[(0, 2, 4), (3, 2, 4)]);
    assert!(grid.apply_swipe(Direction::Left).changed);
    assert_eq!(cells(&grid), vec![(0, 2, 5)]);
}

#[test]
fn leading_tile_snaps_to_wall() {
    for dir in DIRECTIONS {
        let mut grid = grid_of(&[(1, 1, 0), (2, 2, 1), (1, 2, 2)]);
        grid.apply_swipe(dir);
        for t in grid.snapshot() {
            let (lane_is_row, wall) = match dir {
                Direction::Left => (true, 0),
                Direction::Right => (true, WIDTH - 1),
                Direction::Down => (false, 0),
                Direction::Up => (false, HEIGHT - 1),
            };
            let at_wall = if lane_is_row {
                Position { x: wall, y: t.position.y }
            } else {
                Position { x: t.position.x, y: wall }
            };
            assert!(grid.value_at(at_wall).is_some());
        }
    }
}

#[test]
fn swipe_conserves_values_up_to_merges() {
    for dir in DIRECTIONS {
        let mut grid = grid_of(&[
            (0, 0, 1), (1, 0, 1), (2, 0, 2), (3, 0, 2),
            (0, 1, 0), (2, 1, 0), (3, 1, 0),
            (1, 2, 5), (1, 3, 5),
            (3, 3, 9),
        ]);
        let before = mass(&grid);
        let count = grid.len();
        grid.apply_swipe(dir);
        assert_eq!(mass(&grid), before);
        assert!(grid.len() <= count);
    }
    let mut grid = grid_of(&[(0, 0, 1), (1, 0, 1), (2, 0, 2), (3, 0, 3)]);
    grid.apply_swipe(Direction::Left);
    let mut values: Vec<u32> = grid.snapshot().iter().map(|t| t.value).collect();
    values.sort();
    assert_eq!(values, vec![2, 2, 3]);
}

#[test]
fn settled_grid_is_left_unchanged() {
    let settled = [(0, 0, 1), (1, 0, 2), (2, 0, 1), (0, 1, 3), (0, 3, 0), (1, 3, 4)];
    let mut grid = grid_of(&settled);
    let result = grid.apply_swipe(Direction::Left);
    assert!(!result.changed);
    let mut expected = settled.to_vec();
    expected.sort();
    assert_eq!(cells(&grid), expected);
    let again = grid.apply_swipe(Direction::Left);
    assert!(!again.changed);
    assert_eq!(cells(&grid), expected);
}

#[test]
fn packed_lane_with_equal_neighbours_still_merges() {
    let mut grid = grid_of(&[(0, 0, 1), (1, 0, 1)]);
    let result = grid.apply_swipe(Direction::Left);
    assert!(result.changed);
    assert_eq!(cells(&grid), vec![(0, 0, 2)]);
}

#[test]
fn move_without_merge_counts_as_change() {
    let mut grid = grid_of(&[(2, 1, 6)]);
    let result = grid.apply_swipe(Direction::Left);
    assert!(result.changed);
    assert_eq!(cells(&grid), vec![(0, 1, 6)]);
    assert!(!grid.apply_swipe(Direction::Left).changed);
    assert!(grid.apply_swipe(Direction::Down).changed);
    assert_eq!(cells(&grid), vec![(0, 0, 6)]);
}

#[test]
fn full_grid_without_equal_neighbours_does_not_change() {
    let mut all = Vec::new();
    for x in 0..WIDTH {
        for y in 0..HEIGHT {
            all.push((x, y, (x + 2 * y) % 4 + 4 * (y / 2)));
        }
    }
    let mut grid = grid_of(&all);
    assert!(grid.is_terminal());
    let mut expected = all.clone();
    expected.sort();
    for dir in [Direction::Left, Direction::Right] {
        assert!(!grid.apply_swipe(dir).changed);
        assert_eq!(cells(&grid), expected);
    }
}

#[test]
fn is_terminal_only_on_full_grid() {
    let mut all = Vec::new();
    for x in 0..WIDTH {
        for y in 0..HEIGHT {
            all.push(tile(x, y, x + HEIGHT * y));
            let grid = Grid::from_tiles(all.clone()).unwrap();
            assert_eq!(grid.is_terminal(), all.len() == (WIDTH * HEIGHT) as usize);
            assert_eq!(grid.len(), all.len());
        }
    }
    assert!(!Grid::new().is_terminal());
}

#[test]
fn from_tiles_rejects_invalid_tiles() {
    assert!(Grid::from_tiles(vec![tile(0, 0, 1), tile(0, 0, 2)]).is_none());
    assert!(Grid::from_tiles(vec![tile(WIDTH, 0, 1)]).is_none());
    assert!(Grid::from_tiles(vec![tile(0, HEIGHT, 1)]).is_none());
    let marked = Tile { position: Position { x: 1, y: 1 }, value: 0, merged_this_move: true };
    assert!(Grid::from_tiles(vec![marked]).is_none());
    assert!(Grid::from_tiles(vec![tile(1, 0, 1), tile(0, 1, 1)]).is_some());
    assert!(Grid::from_tiles(Vec::new()).is_some());
}

#[test]
fn snapshot_lists_the_tiles_given() {
    let given = vec![tile(3, 1, 4), tile(0, 0, 1), tile(2, 2, 0)];
    let grid = Grid::from_tiles(given.clone()).unwrap();
    assert_eq!(grid.snapshot(), given);
}

#[test]
fn value_at_finds_tiles() {
    let grid = grid_of(&[(3, 1, 4), (0, 0, 1)]);
    assert_eq!(grid.value_at(Position { x: 3, y: 1 }), Some(4));
    assert_eq!(grid.value_at(Position { x: 0, y: 0 }), Some(1));
    assert_eq!(grid.value_at(Position { x: 1, y: 3 }), None);
    assert_eq!(grid.value_at(Position { x: 7, y: 7 }), None);
}

#[test]
fn place_takes_free_cells_only() {
    let mut grid = grid_of(&[(0, 0, 1)]);
    assert!(!grid.place(tile(0, 0, 5)));
    assert!(!grid.place(tile(4, 0, 5)));
    let marked = Tile { position: Position { x: 1, y: 1 }, value: 0, merged_this_move: true };
    assert!(!grid.place(marked));
    assert_eq!(cells(&grid), vec![(0, 0, 1)]);
    assert!(grid.place(tile(1, 1, 5)));
    assert_eq!(cells(&grid), vec![(0, 0, 1), (1, 1, 5)]);
}

#[test]
fn clear_empties_the_grid() {
    let mut grid = grid_of(&[(0, 0, 1), (1, 1, 5)]);
    grid.clear();
    assert_eq!(grid.len(), 0);
    assert_eq!(grid.snapshot(), Vec::new());
}

#[test]
fn headroom_is_lost_at_largest_value() {
    assert!(grid_of(&[(0, 0, u32::MAX - 1)]).check_headroom());
    assert!(!grid_of(&[(0, 0, 3), (1, 0, u32::MAX)]).check_headroom());
    assert!(Grid::new().check_headroom());
    let mut grid = grid_of(&[(0, 0, u32::MAX - 1), (2, 0, u32::MAX - 1)]);
    assert!(grid.apply_swipe(Direction::Left).changed);
    assert_eq!(cells(&grid), vec![(0, 0, u32::MAX)]);
}

#[test]
fn lane_does_not_depend_on_other_lanes() {
    for dir in DIRECTIONS {
        let lane_only = [(0, 1, 3), (2, 1, 3), (3, 1, 4)];
        let with_others = [(0, 1, 3), (2, 1, 3), (3, 1, 4), (0, 0, 3), (2, 2, 4), (3, 3, 3)];
        let column_only = [(1, 0, 3), (1, 2, 3), (1, 3, 4)];
        let column_with_others = [(1, 0, 3), (1, 2, 3), (1, 3, 4), (0, 0, 3), (2, 2, 4), (3, 3, 3)];
        let (alone, among, keep): (_, _, fn(&(u32, u32, u32)) -> bool) = match dir {
            Direction::Left | Direction::Right => (lane_only, with_others, |c| c.1 == 1),
            Direction::Up | Direction::Down => (column_only, column_with_others, |c| c.0 == 1),
        };
        let mut small = grid_of(&alone);
        let mut large = grid_of(&among);
        small.apply_swipe(dir);
        large.apply_swipe(dir);
        let in_lane: Vec<(u32, u32, u32)> = cells(&large).into_iter().filter(keep).collect();
        assert_eq!(in_lane, cells(&small));
        assert_eq!(in_lane.len(), 2);
    }
}
