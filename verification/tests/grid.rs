use sandgrid::changelist::{Change, Changelist, Direction};
use sandgrid::grid::{Grid, EMPTY};

fn occupied(grid: &Grid) -> usize {
    grid.colors.iter().filter(|&&c| c != EMPTY).count()
}

#[test]
fn new_grid_is_empty() {
    let grid = Grid::new();
    assert_eq!(grid.colors.len(), 800 * 600);
    assert_eq!(occupied(&grid), 0);
}

#[test]
fn spawn_fills_disc_and_reports_placement() {
    let mut grid = Grid::new();
    let placed = grid.spawn((100, 100), 0x123456);
    assert!(placed);
    assert!(occupied(&grid) > 0);
    // The default radius is 8: the disc stays well inside the grid and
    // holds more than a single cell.
    assert!(occupied(&grid) > 100);
}

#[test]
fn spawn_on_full_disc_places_nothing() {
    let mut grid = Grid::new();
    assert!(grid.spawn((50, 50), 0xAAAAAA));
    let snapshot = grid.colors.clone();
    let placed_again = grid.spawn((50, 50), 0xBBBBBB);
    assert!(!placed_again);
    assert_eq!(grid.colors, snapshot);
}

#[test]
fn update_conserves_occupied_cells() {
    let mut grid = Grid::new();
    grid.spawn((200, 100), 0x654321);
    let before = occupied(&grid);
    let moved = grid.update();
    assert!(moved);
    assert_eq!(occupied(&grid), before);
}

#[test]
fn single_cell_falls_to_the_bottom() {
    let mut grid = Grid::new();
    grid.resize(3, 3);
    grid.set_pixel(1, 0xC0FFEE);
    assert!(grid.update());
    assert_eq!(grid.colors[1], EMPTY);
    assert_eq!(grid.colors[4], 0xC0FFEE);
    assert!(grid.update());
    assert_eq!(grid.colors[4], EMPTY);
    assert_eq!(grid.colors[7], 0xC0FFEE);
    // The bottom row is settled: nothing can move any further.
    assert!(!grid.update());
    assert_eq!(grid.colors[7], 0xC0FFEE);
}

#[test]
fn blocked_cell_slides_down_left() {
    let mut grid = Grid::new();
    grid.resize(3, 3);
    grid.set_pixel(7, 0xA);
    grid.set_pixel(4, 0xB);
    grid.take_changes();
    assert!(grid.update());
    assert_eq!(grid.colors[4], EMPTY);
    assert_eq!(grid.colors[6], 0xB);
    assert_eq!(grid.colors[7], 0xA);
    // The tick's log holds exactly that one move, one row down and one
    // column to the left.
    let log = grid.take_changes();
    assert_eq!(log.iter(), vec![Change::Move(4, Direction::DownLeft)]);
}

#[test]
fn clear_empties_and_reactivates_everything() {
    let mut grid = Grid::new();
    grid.spawn((30, 30), 0x999999);
    grid.clear();
    assert_eq!(occupied(&grid), 0);
    let log = grid.take_changes();
    assert_eq!(log.iter(), vec![Change::Clear]);
    // After a clear the next update scans the whole grid again: a raw
    // write that never touched the active bounds still falls.
    grid.set_pixel(5, 0xD00DAD);
    assert!(grid.update());
    assert_eq!(grid.colors[5], EMPTY);
    assert_eq!(grid.colors[805], 0xD00DAD);
}

#[test]
fn replaying_a_ticks_log_mirrors_the_grid() {
    let mut grid = Grid::new();
    grid.spawn((120, 80), 0x222222);
    grid.spawn((121, 95), 0x333333);
    grid.update();
    grid.update();
    let log = grid.take_changes();

    let mut mirror = Grid::new();
    assert!(mirror.apply(&log));
    assert_eq!(mirror.colors, grid.colors);
}

#[test]
fn replaying_a_resize_tick_mirrors_the_grid() {
    let mut grid = Grid::new();
    grid.spawn((10, 10), 0x445566);
    grid.resize(400, 300);
    grid.update();
    let log = grid.take_changes();

    let mut mirror = Grid::new();
    assert!(mirror.apply(&log));
    assert_eq!(mirror.colors.len(), 400 * 300);
    assert_eq!(mirror.colors, grid.colors);
}

#[test]
fn apply_rejects_unknown_tag() {
    let mut grid = Grid::new();
    let log = Changelist {
        changes: vec![0xF000_0000],
    };
    assert!(!grid.apply(&log));
}

#[test]
fn apply_rejects_reserved_direction() {
    let mut grid = Grid::new();
    let log = Changelist {
        changes: vec![(0b0010u32 << 28) | (7 << 2) | 3],
    };
    assert!(!grid.apply(&log));
}

#[test]
fn apply_rejects_truncated_record() {
    let mut grid = Grid::new();
    let log = Changelist {
        changes: vec![0b0001u32 << 28 | 5],
    };
    assert!(!grid.apply(&log));
}

#[test]
fn apply_rejects_zero_dimension_resize() {
    let mut grid = Grid::new();
    let mut log = Changelist::new();
    log.resize(0, 5);
    assert!(!grid.apply(&log));
}

#[test]
fn apply_rejects_out_of_bounds_move() {
    let mut grid = Grid::new();
    grid.resize(2, 3);
    let mut log = Changelist::new();
    // Source on the bottom row: nowhere to fall to.
    log.move_pixel(4, Direction::Down);
    assert!(!grid.apply(&log));
}

#[test]
fn resize_preserves_settled_sand() {
    let mut grid = Grid::new();
    grid.resize(2, 2);
    grid.set_pixel(2, 0x11);
    grid.set_pixel(3, 0x22);
    grid.resize(3, 3);
    // The old content is anchored left and bottom.
    assert_eq!(grid.colors, vec![
        EMPTY, EMPTY, EMPTY, EMPTY, EMPTY, EMPTY, 0x11, 0x22, EMPTY
    ]);
}

#[test]
fn short_grids_never_update() {
    let mut grid = Grid::new();
    grid.resize(5, 2);
    grid.set_pixel(0, 0x99);
    assert!(!grid.update());
    assert_eq!(grid.colors[0], 0x99);
}

#[test]
fn resize_to_single_cell_keeps_bottom_left() {
    let mut grid = Grid::new();
    grid.set_pixel(599 * 800, 0x55);
    grid.resize(1, 1);
    assert_eq!(grid.colors, vec![0x55]);
}

#[test]
fn first_update_on_a_fresh_grid_is_quiet() {
    let mut grid = Grid::new();
    assert!(!grid.update());
    assert_eq!(occupied(&grid), 0);
}
