use merge_grid::grid::Grid;
use merge_grid::tile::{Position, Tile, HEIGHT, WIDTH};

fn spawn_tile(x: u32, y: u32, value: u32) -> Tile {
    Tile { position: Position { x, y }, value, merged_this_move: false }
}

fn all_but(free: &[(u32, u32)]) -> Grid {
    let mut tiles = Vec::new();
    for x in 0..WIDTH {
        for y in 0..HEIGHT {
            if !free.contains(&(x, y)) {
                tiles.push(spawn_tile(x, y, x + y));
            }
        }
    }
    Grid::from_tiles(tiles).unwrap()
}

#[test]
fn free_cells_of_empty_grid_come_column_by_column() {
    let free = Grid::new().free_cells();
    let mut expected = Vec::new();
    for x in 0..WIDTH {
        for y in 0..HEIGHT {
            expected.push(Position { x, y });
        }
    }
    assert_eq!(free, expected);
    assert_eq!(free[1], Position { x: 0, y: 1 });
    assert_eq!(free[4], Position { x: 1, y: 0 });
}

#[test]
fn free_cells_leave_out_tiles() {
    let grid = all_but(&[(2, 1), (0, 3), (3, 0)]);
    assert_eq!(
        grid.free_cells(),
        vec![Position { x: 0, y: 3 }, Position { x: 2, y: 1 }, Position { x: 3, y: 0 }]
    );
    assert_eq!(all_but(&[]).free_cells(), Vec::new());
}

#[test]
fn free_cells_and_tiles_cover_the_grid() {
    let grid = all_but(&[(2, 1), (0, 3), (3, 0), (1, 1)]);
    assert_eq!(grid.free_cells().len() + grid.len(), (WIDTH * HEIGHT) as usize);
}

#[test]
fn spawn_at_takes_the_cell_the_roll_falls_on() {
    let mut grid = all_but(&[(2, 1), (0, 3), (3, 0)]);
    let tile = grid.spawn_at(7, 5, 1);
    assert_eq!(tile, spawn_tile(2, 1, 0));
    assert_eq!(grid.len(), 14);
    assert_eq!(grid.value_at(Position { x: 2, y: 1 }), Some(0));
    assert_eq!(grid.snapshot().last(), Some(&tile));

    let tile = grid.spawn_at(usize::MAX, 5, 2);
    let at = usize::MAX % 2;
    let expected = [Position { x: 0, y: 3 }, Position { x: 3, y: 0 }][at];
    assert_eq!(tile, Tile { position: expected, value: 1, merged_this_move: false });
}

#[test]
fn spawn_at_draws_value_below_span() {
    let mut grid = Grid::new();
    assert_eq!(grid.spawn_at(0, 17, 1).value, 0);
    assert_eq!(grid.spawn_at(0, 17, 2).value, 1);
    assert_eq!(grid.spawn_at(0, 17, 5).value, 2);
    assert_eq!(grid.spawn_at(0, 4, 5).value, 4);
    assert_eq!(grid.spawn_at(0, u32::MAX, u32::MAX).value, 0);
}

#[test]
fn spawn_never_takes_an_occupied_cell() {
    for roll in 0..40usize {
        let mut grid = all_but(&[(1, 2), (3, 3)]);
        let before = grid.snapshot();
        let tile = grid.spawn_at(roll, roll as u32, 2);
        assert!(before.iter().all(|t| t.position != tile.position));
        assert!(tile.position == Position { x: 1, y: 2 } || tile.position == Position { x: 3, y: 3 });
        assert!(!tile.merged_this_move);
        assert_eq!(grid.len(), before.len() + 1);
    }
}

#[test]
fn spawn_fills_the_last_cell() {
    let mut grid = all_but(&[(2, 2)]);
    assert!(!grid.is_terminal());
    let tile = grid.spawn_at(123_456, 0, 1);
    assert_eq!(tile.position, Position { x: 2, y: 2 });
    assert!(grid.is_terminal());
}

#[test]
fn spawn_one_lands_on_a_free_cell() {
    for _ in 0..50 {
        let mut grid = all_but(&[(0, 0), (1, 3), (2, 2)]);
        let before = grid.snapshot();
        let tile = grid.spawn_one(2);
        assert!(tile.position.on_grid());
        assert!(before.iter().all(|t| t.position != tile.position));
        assert!(tile.value < 2);
        assert!(!tile.merged_this_move);
        assert_eq!(grid.len(), 14);
        assert_eq!(grid.value_at(tile.position), Some(tile.value));
    }
}

#[test]
fn spawn_one_with_one_starting_value_gives_the_lowest() {
    for _ in 0..20 {
        let mut grid = Grid::new();
        assert_eq!(grid.spawn_one(1).value, 0);
    }
}
