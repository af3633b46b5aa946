use sandgrid::changelist::{
    Change, Changelist, Direction, CLEAR_TAG, MOVE_TAG, RESIZE_TAG, SPAWN_TAG,
};

#[test]
pub fn clear() {
    let mut changelist = Changelist::new();
    changelist.clear();
    assert_eq!(changelist.changes, vec![CLEAR_TAG << 28]);

    let iter = changelist.iter();
    assert_eq!(iter.get(0).copied(), Some(Change::Clear));
}

#[test]
pub fn resize() {
    let mut changelist = Changelist::new();
    changelist.resize(10, 20);
    assert_eq!(changelist.changes, vec![(RESIZE_TAG << 28) | 20, 10]);

    let iter = changelist.iter();
    assert_eq!(iter.get(0).copied(), Some(Change::Resize(10, 20)));
}

#[test]
pub fn move_pixel() {
    let mut changelist = Changelist::new();
    changelist.move_pixel(10, Direction::Down);
    assert_eq!(
        changelist.changes,
        vec![(MOVE_TAG << 28) | 10 << 2 | Direction::Down as u32]
    );

    let iter = changelist.iter();
    assert_eq!(iter.get(0).copied(), Some(Change::Move(10, Direction::Down)));
}

#[test]
pub fn spawn() {
    let mut changelist = Changelist::new();
    changelist.spawn(10, 0xFF00FF);
    assert_eq!(changelist.changes, vec![(SPAWN_TAG << 28) | 10, 0xFF00FF]);

    let iter = changelist.iter();
    assert_eq!(
        iter.get(0).copied(),
        Some(Change::Spawn {
            color: 0xFF00FF,
            pos: 10
        })
    );
}

#[test]
pub fn identity() {
    let changes = vec![
        Change::Resize(10, 20),
        Change::Move(10, Direction::Down),
        Change::Spawn {
            color: 0xFF00FF,
            pos: 10,
        },
    ];
    let changelist = Changelist::from_changes(&changes);
    let decoded = changelist.iter();
    for (k, change) in changes.into_iter().enumerate() {
        assert_eq!(decoded.get(k).copied(), Some(change));
    }
}

#[test]
fn encoding_examples() {
    let mut changelist = Changelist::new();
    changelist.resize(10, 20);
    assert_eq!(changelist.changes, vec![0x10000014, 0x0000000A]);

    let mut changelist = Changelist::new();
    changelist.move_pixel(10, Direction::Down);
    assert_eq!(changelist.changes, vec![0x20000028]);

    let mut changelist = Changelist::new();
    changelist.spawn(10, 0xFF00FF);
    assert_eq!(changelist.changes, vec![0x3000000A, 0x00FF00FF]);

    let mut changelist = Changelist::new();
    changelist.clear();
    assert_eq!(changelist.changes, vec![0x00000000]);
}

#[test]
fn log_accumulates_and_truncates() {
    let mut changelist = Changelist::new();
    changelist.move_pixel(3, Direction::DownLeft);
    changelist.spawn(7, 0xABCDEF);
    assert_eq!(changelist.iter().len(), 2);

    // A clear discards everything recorded before it.
    changelist.clear();
    assert_eq!(changelist.iter(), vec![Change::Clear]);

    // Reusing the allocation starts an empty log.
    let recycled = Changelist::using_capacity(changelist);
    assert_eq!(recycled.changes.len(), 0);
}
