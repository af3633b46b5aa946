use sandgrid::grid::EMPTY;
use sandgrid::resize::smart_resize;

#[test]
fn grow_width_preserves_content() {
    let mut buffer = vec![0xA];
    smart_resize(&mut buffer, (1, 1), (2, 1));
    assert_eq!(buffer, vec![0xA, EMPTY]);
}

#[test]
fn shrink_width_keeps_left_columns() {
    let mut buffer = vec![0xA, 0xB];
    smart_resize(&mut buffer, (2, 1), (1, 1));
    assert_eq!(buffer, vec![0xA]);
}

#[test]
fn grow_height_adds_rows_at_top() {
    let mut buffer = vec![0xA, 0xB];
    smart_resize(&mut buffer, (2, 1), (2, 2));
    assert_eq!(buffer, vec![EMPTY, EMPTY, 0xA, 0xB]);
}

#[test]
fn shrink_height_drops_topmost_rows() {
    let mut buffer = vec![1, 2, 3, 4];
    smart_resize(&mut buffer, (2, 2), (2, 1));
    assert_eq!(buffer, vec![3, 4]);
}

#[test]
fn shrink_single_column_keeps_bottom() {
    let mut buffer = vec![0xA, 0xB];
    smart_resize(&mut buffer, (1, 2), (1, 1));
    assert_eq!(buffer, vec![0xB]);
}

#[test]
fn grow_both_dimensions() {
    let mut buffer = vec![1, 2, 3, 4];
    smart_resize(&mut buffer, (2, 2), (3, 3));
    assert_eq!(buffer, vec![EMPTY, EMPTY, EMPTY, 1, 2, EMPTY, 3, 4, EMPTY]);
}

#[test]
fn shrink_both_dimensions() {
    let mut buffer = vec![1, 2, 3, 4, 5, 6, 7, 8, 9];
    smart_resize(&mut buffer, (3, 3), (2, 2));
    assert_eq!(buffer, vec![4, 5, 7, 8]);
}

#[test]
fn identity_resize_leaves_buffer_alone() {
    let mut buffer = vec![1, 2, 3, 4, 5, 6];
    smart_resize(&mut buffer, (3, 2), (3, 2));
    assert_eq!(buffer, vec![1, 2, 3, 4, 5, 6]);
}
