use merge_grid::session::{Session, TickReport};
use merge_grid::tile::{Direction, Position, Tile, HEIGHT, WIDTH};

fn held(session: &Session) -> Vec<(u32, u32, u32)> {
    let mut all: Vec<(u32, u32, u32)> =
        session.snapshot().iter().map(|t| (t.position.x, t.position.y, t.value)).collect();
    all.sort();
    all
}

/// A session whose grid holds a tile in every cell but (3, 3), with no two
/// neighbours of equal value; `low_pair` makes the tiles at (0, 0) and
/// (1, 0) equal.
fn nearly_full(low_pair: bool) -> Session {
    let mut session = Session::new(1).unwrap();
    for y in 0..HEIGHT {
        for x in 0..WIDTH {
            if (x, y) == (3, 3) {
                continue;
            }
            let value = if low_pair && y == 0 && x <= 1 { 20 } else { (x + 2 * y) % 4 + 4 * (y / 2) };
            assert!(session.place(Tile {
                position: Position { x, y },
                value,
                merged_this_move: false
            }));
        }
    }
    session
}

#[test]
fn new_session_is_empty() {
    let session = Session::new(1).unwrap();
    assert_eq!(session.snapshot(), Vec::new());
    assert!(!session.is_terminal());
    assert!(Session::new(0).is_none());
    assert!(Session::new(2).is_some());
}

#[test]
fn tick_without_command_does_nothing() {
    let mut session = Session::new(1).unwrap();
    let report = session.tick_with(3, 4);
    assert_eq!(
        report,
        TickReport { direction: None, changed: false, spawned: None, terminal: false }
    );
    assert_eq!(session.snapshot(), Vec::new());
}

#[test]
fn swipe_of_empty_grid_spawns_nothing() {
    for dir in [Direction::Up, Direction::Down, Direction::Left, Direction::Right] {
        let mut session = Session::new(1).unwrap();
        session.submit_direction(dir);
        let report = session.tick_with(3, 4);
        assert_eq!(
            report,
            TickReport { direction: Some(dir), changed: false, spawned: None, terminal: false }
        );
        assert_eq!(session.snapshot(), Vec::new());
    }
}

#[test]
fn swipe_without_movement_spawns_nothing() {
    let mut session = nearly_full(false);
    let before = held(&session);
    assert_eq!(before.len(), 15);
    session.submit_direction(Direction::Left);
    let report = session.tick_with(0, 0);
    assert!(!report.changed);
    assert_eq!(report.spawned, None);
    assert!(!report.terminal);
    assert_eq!(held(&session), before);
    assert!(!session.is_terminal());
}

#[test]
fn swipe_with_merge_spawns_one_tile() {
    let mut session = nearly_full(true);
    assert_eq!(session.snapshot().len(), 15);
    session.submit_direction(Direction::Left);
    let report = session.tick_with(0, 0);
    assert!(report.changed);
    assert_eq!(
        report.spawned,
        Some(Tile { position: Position { x: 3, y: 0 }, value: 0, merged_this_move: false })
    );
    assert!(!report.terminal);
    assert_eq!(session.snapshot().len(), 15);
    assert!(!session.is_terminal());
    let after = held(&session);
    assert!(after.contains(&(0, 0, 21)));
    assert!(after.contains(&(3, 0, 0)));
    assert!(!after.iter().any(|&(x, y, _)| (x, y) == (3, 3)));
}

#[test]
fn spawn_after_swipe_uses_the_swiped_grid() {
    let mut session = Session::new(3).unwrap();
    assert!(session.place(Tile {
        position: Position { x: 2, y: 1 },
        value: 4,
        merged_this_move: false
    }));
    session.submit_direction(Direction::Left);
    let report = session.tick_with(4, 8);
    assert!(report.changed);
    // The tile went to (0, 1): the free cells are (0,0), (0,2), (0,3), (1,0), (1,1), ...
    assert_eq!(
        report.spawned,
        Some(Tile { position: Position { x: 1, y: 1 }, value: 2, merged_this_move: false })
    );
    assert_eq!(held(&session), vec![(0, 1, 4), (1, 1, 2)]);
}

#[test]
fn commands_are_resolved_in_the_order_they_came() {
    let mut session = Session::new(1).unwrap();
    assert!(session.place(Tile {
        position: Position { x: 1, y: 1 },
        value: 3,
        merged_this_move: false
    }));
    session.submit_direction(Direction::Right);
    session.submit_direction(Direction::Up);
    session.submit_direction(Direction::Left);
    let first = session.tick_with(15, 0);
    assert_eq!(first.direction, Some(Direction::Right));
    assert!(held(&session).contains(&(3, 1, 3)));
    let second = session.tick_with(15, 0);
    assert_eq!(second.direction, Some(Direction::Up));
    assert!(held(&session).contains(&(3, 3, 3)));
    assert_eq!(session.take_pending_direction(), Some(Direction::Left));
    assert_eq!(session.take_pending_direction(), None);
    let idle = session.tick_with(0, 0);
    assert_eq!(idle.direction, None);
}

#[test]
fn filling_the_last_cell_is_terminal() {
    let mut session = Session::new(1).unwrap();
    for y in 0..HEIGHT {
        for x in 0..WIDTH {
            if x == 3 && (y == 0 || y == 1) {
                continue;
            }
            let value = if y == 0 { 9 + x } else { (x + 2 * y) % 4 + 4 * (y / 2) };
            assert!(session.place(Tile {
                position: Position { x, y },
                value,
                merged_this_move: false
            }));
        }
    }
    assert!(session.place(Tile {
        position: Position { x: 3, y: 0 },
        value: 30,
        merged_this_move: false
    }));
    assert_eq!(session.snapshot().len(), 15);
    session.submit_direction(Direction::Up);
    let report = session.tick_with(5, 0);
    assert!(report.changed);
    assert!(report.terminal);
    assert!(session.is_terminal());
    assert_eq!(session.snapshot().len(), 16);
    session.reset();
    assert_eq!(session.snapshot(), Vec::new());
    assert!(!session.is_terminal());
}

#[test]
fn random_tick_spawns_on_a_free_cell() {
    for _ in 0..30 {
        let mut session = Session::new(2).unwrap();
        assert!(session.place(Tile {
            position: Position { x: 2, y: 2 },
            value: 1,
            merged_this_move: false
        }));
        session.submit_direction(Direction::Down);
        let report = session.tick().unwrap();
        assert!(report.changed);
        let tile = report.spawned.unwrap();
        assert!(tile.position.on_grid());
        assert_ne!(tile.position, Position { x: 2, y: 0 });
        assert!(tile.value < 2);
        let after = held(&session);
        assert_eq!(after.len(), 2);
        assert!(after.contains(&(2, 0, 1)));
        assert!(after.contains(&(tile.position.x, tile.position.y, tile.value)));
    }
}

#[test]
fn random_tick_without_command_reports_idle() {
    let mut session = Session::new(1).unwrap();
    let report = session.tick().unwrap();
    assert_eq!(
        report,
        TickReport { direction: None, changed: false, spawned: None, terminal: false }
    );
}

#[test]
fn tick_refuses_without_headroom() {
    let mut session = Session::new(1).unwrap();
    assert!(session.place(Tile {
        position: Position { x: 0, y: 0 },
        value: u32::MAX,
        merged_this_move: false
    }));
    assert!(!session.check_headroom());
    session.submit_direction(Direction::Right);
    assert_eq!(session.tick(), None);
    assert_eq!(held(&session), vec![(0, 0, u32::MAX)]);
    assert_eq!(session.take_pending_direction(), Some(Direction::Right));
}

#[test]
fn session_spawns_until_the_grid_is_full() {
    let mut session = Session::new(1).unwrap();
    for count in 1..=(WIDTH * HEIGHT) as usize {
        let before = session.snapshot();
        let tile = session.spawn_one().unwrap();
        assert!(before.iter().all(|t| t.position != tile.position));
        assert_eq!(tile.value, 0);
        assert_eq!(session.snapshot().len(), count);
    }
    assert!(session.is_terminal());
    assert_eq!(session.spawn_one(), None);
    assert_eq!(session.snapshot().len(), (WIDTH * HEIGHT) as usize);
}
