use sandgrid::double::{draw_overlay, revert_overlay, Event};
use sandgrid::grid::{Grid, EMPTY};
use sandgrid::radii::RadiusId;

fn occupied(grid: &Grid) -> usize {
    grid.colors.iter().filter(|&&c| c != EMPTY).count()
}

#[test]
fn tick_with_no_events_is_quiet() {
    let mut grid = Grid::new();
    let out = grid.run_tick(&vec![], false);
    assert!(!out.publish);
    assert!(!out.needs_update);
    assert!(!out.exit);
    assert!(!out.ran_update);
}

#[test]
fn spawn_event_triggers_one_update_and_a_publish() {
    let mut grid = Grid::new();
    let events = vec![Event::Spawn(0xABCDEF, (10, 10))];
    let out = grid.run_tick(&events, false);
    assert!(out.publish);
    assert!(out.ran_update);
    assert!(!out.exit);
    assert!(occupied(&grid) > 0);
}

#[test]
fn resize_event_changes_dimensions() {
    let mut grid = Grid::new();
    let events = vec![Event::Resize(4, 4)];
    let out = grid.run_tick(&events, false);
    assert!(out.ran_update);
    assert_eq!(grid.colors.len(), 16);
}

#[test]
fn clear_event_publishes_without_an_update() {
    let mut grid = Grid::new();
    grid.spawn((10, 10), 0x777777);
    grid.take_changes();
    let out = grid.run_tick(&vec![Event::Clear], false);
    assert!(out.publish);
    assert!(!out.ran_update);
    assert_eq!(occupied(&grid), 0);
}

#[test]
fn exit_event_stops_the_tick_without_publishing() {
    let mut grid = Grid::new();
    let events = vec![
        Event::Clear,
        Event::Exit,
        Event::Spawn(0x123456, (10, 10)),
    ];
    let out = grid.run_tick(&events, false);
    assert!(out.exit);
    assert!(!out.publish);
    // The event after the stop was never applied.
    assert_eq!(occupied(&grid), 0);
}

#[test]
fn radius_event_widens_the_brush() {
    let mut grid = Grid::new();
    let mut small = RadiusId::default();
    for _ in 0..10 {
        small.next_smaller();
    }
    grid.run_tick(&vec![Event::Radius(small)], false);
    grid.spawn((100, 100), 0x424242);
    // Radius one paints exactly the single cell under the cursor.
    assert_eq!(occupied(&grid), 1);
}

#[test]
fn radius_ladder_saturates_at_both_ends() {
    let mut id = RadiusId::default();
    assert_eq!(id.get(), 8);
    for _ in 0..20 {
        id.next_bigger();
    }
    assert_eq!(id.get(), 256);
    for _ in 0..20 {
        id.next_smaller();
    }
    assert_eq!(id.get(), 1);
}

#[test]
fn overlay_draws_and_reverts_preview_pixels() {
    let mut buffer = vec![EMPTY; 9];
    let mut temporaries: Vec<usize> = Vec::new();
    draw_overlay(&mut buffer, &mut temporaries, 0xBEEF, (1, 1), 3, 3, 1);
    assert_eq!(buffer[4], 0xBEEF);
    assert_eq!(temporaries, vec![4]);
    for (i, &c) in buffer.iter().enumerate() {
        if i != 4 {
            assert_eq!(c, EMPTY);
        }
    }
    revert_overlay(&mut buffer, &mut temporaries);
    assert_eq!(buffer, vec![EMPTY; 9]);
    assert!(temporaries.is_empty());
}

#[test]
fn overlay_skips_occupied_cells() {
    let mut buffer = vec![EMPTY; 9];
    buffer[4] = 0x111111;
    let mut temporaries: Vec<usize> = Vec::new();
    draw_overlay(&mut buffer, &mut temporaries, 0xBEEF, (1, 1), 3, 3, 1);
    assert_eq!(buffer[4], 0x111111);
    assert!(temporaries.is_empty());
}

#[test]
fn overlay_clips_at_the_grid_edge() {
    let mut buffer = vec![EMPTY; 9];
    let mut temporaries: Vec<usize> = Vec::new();
    draw_overlay(&mut buffer, &mut temporaries, 0xC4FE, (0, 0), 3, 3, 2);
    // Radius two covers a full square of offsets; only the in-bounds
    // quarter around the corner is painted.
    assert_eq!(temporaries.len(), 4);
    assert_eq!(buffer[0], 0xC4FE);
    assert_eq!(buffer[1], 0xC4FE);
    assert_eq!(buffer[3], 0xC4FE);
    assert_eq!(buffer[4], 0xC4FE);
    assert_eq!(buffer[2], EMPTY);
}

#[test]
fn tick_log_replays_onto_a_mirror() {
    let mut grid = Grid::new();
    let mut mirror = Grid::new();
    let events = vec![Event::Spawn(0x818283, (40, 40))];
    grid.run_tick(&events, false);
    let log = grid.take_changes();
    assert!(mirror.apply(&log));
    assert_eq!(mirror.colors, grid.colors);
}
