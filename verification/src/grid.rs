//! The falling-cell grid: a flat row-major buffer of packed colors, with
//! gravity, spawning, clearing, resizing, and replay of a change log.
//!
//! Every mutating operation appends its records to the grid's per-tick
//! change log, and its contract states that replaying those records on the
//! state the grid had before the call yields the state it has after it.

use vstd::prelude::*;

use crate::changelist::{
    change_valid,
    decode_words,
    encode_change,
    lemma_decode_push,
    lemma_decode_single,
    Change,
    Changelist,
    Direction,
    CLEAR_TAG,
    MOVE_TAG,
    RESIZE_TAG,
    SPAWN_TAG,
};
use crate::radii::RadiusId;
use crate::resize::{lemma_div_bounds, lemma_idx_bound, lemma_rowcol, resize_spec, smart_resize};
use crate::rng::{rng_bool, rng_new};

verus! {

/// The reserved sentinel color that marks a cell as empty.  Occupancy and
/// color share the cell value: no operation may place this value as a real
/// color.
pub const EMPTY: u32 = 0xFFE0FFFE;

/// Grid dimensions at construction.
pub const DEFAULT_WIDTH: u16 = 800;

pub const DEFAULT_HEIGHT: u16 = 600;

/// The largest cell count the change-log encoding supports: a move record
/// carries its index in 26 bits.
pub const MAX_CELLS: u32 = 0x400_0000;

/// The observable state of a grid: its dimensions and its cell buffer.
#[verifier::ext_equal]
pub ghost struct GridState {
    pub width: int,
    pub height: int,
    pub cells: Seq<u32>,
}

/// The flat index a move from `pos` lands on.
pub open spec fn target_of(pos: int, width: int, d: Direction) -> int {
    match d {
        Direction::Down => pos + width,
        Direction::DownLeft => pos + width - 1,
        Direction::DownRight => pos + width + 1,
    }
}

/// A move record that stays inside a `width` x `height` grid: its source
/// lies above the bottom row and it does not step over a side edge.
pub open spec fn move_local(c: Change, width: int, height: int) -> bool {
    match c {
        Change::Move(pos, d) => {
            &&& 0 <= pos < width * (height - 1)
            &&& (d == Direction::DownLeft ==> (pos as int) % width > 0)
            &&& (d == Direction::DownRight ==> (pos as int) % width < width - 1)
        },
        _ => false,
    }
}

/// A cell that is ready to fall: occupied, with the cell directly below
/// it empty.
pub open spec fn fall_ready(cells: Seq<u32>, w: int, r: int, c: int) -> bool {
    cells[r * w + c] != EMPTY && cells[(r + 1) * w + c] == EMPTY
}

/// The source index of a move record, or -1 for any other record.
pub open spec fn move_src(c: Change) -> int {
    match c {
        Change::Move(pos, _) => pos as int,
        _ => -1,
    }
}

/// The landing index of a move record, or -1 for any other record.
pub open spec fn move_tgt(c: Change, width: int) -> int {
    match c {
        Change::Move(pos, d) => target_of(pos as int, width, d),
        _ => -1,
    }
}

/// The direction of a move record; `Down` for any other record.
pub open spec fn move_dir(c: Change) -> Direction {
    match c {
        Change::Move(_, d) => d,
        _ => Direction::Down,
    }
}

/// A move sequence that moves real grains: at each step, on the state
/// reached so far, the source cell is occupied and the landing cell
/// empty.
pub open spec fn moves_grains(s: GridState, moves: Seq<Change>) -> bool
    decreases moves.len(),
{
    if moves.len() == 0 {
        true
    } else {
        (match moves[0] {
            Change::Move(pos, d) => s.cells[pos as int] != EMPTY && s.cells[target_of(
                pos as int,
                s.width,
                d,
            )] == EMPTY,
            _ => false,
        }) && moves_grains(apply_change(s, moves[0]), moves.skip(1))
    }
}

/// Each grain moves at most once per tick: no move starts from an
/// earlier move's source (just emptied) or landing cell (the scan walks
/// rows bottom-up and never revisits one, so a landed grain rests).
pub open spec fn one_move_each(moves: Seq<Change>, width: int) -> bool {
    forall|k1: int, k2: int|
        #![trigger moves[k1], moves[k2]]
        0 <= k1 < k2 < moves.len() ==> move_src(moves[k2]) != move_src(moves[k1]) && move_src(
            moves[k2],
        ) != move_tgt(moves[k1], width)
}

/// What one replayed record does to a grid state.
pub open spec fn apply_change(s: GridState, c: Change) -> GridState {
    match c {
        Change::Clear => GridState {
            width: s.width,
            height: s.height,
            cells: Seq::new(s.cells.len(), |i: int| EMPTY),
        },
        Change::Resize(w, h) => GridState {
            width: w as int,
            height: h as int,
            cells: resize_spec(s.cells, s.width, s.height, w as int, h as int),
        },
        Change::Move(pos, d) => {
            let t = target_of(pos as int, s.width, d);
            GridState {
                width: s.width,
                height: s.height,
                cells: s.cells.update(t, s.cells[pos as int]).update(pos as int, EMPTY),
            }
        },
        Change::Spawn { color, pos } => GridState {
            width: s.width,
            height: s.height,
            cells: s.cells.update(pos as int, color),
        },
    }
}

/// A record that can be replayed on a state without stepping outside it.
pub open spec fn change_replayable(s: GridState, c: Change) -> bool {
    match c {
        Change::Clear => true,
        Change::Resize(w, h) => 1 <= w <= 0xFFFF && 1 <= h <= 0xFFFF && w * h <= MAX_CELLS,
        Change::Move(_, _) => s.cells.len() == s.width * s.height && move_local(
            c,
            s.width,
            s.height,
        ),
        Change::Spawn { color: _, pos } => pos < s.cells.len(),
    }
}

/// Replaying a record sequence, front first.
pub open spec fn replay(s: GridState, cs: Seq<Change>) -> GridState
    decreases cs.len(),
{
    if cs.len() == 0 {
        s
    } else {
        replay(apply_change(s, cs[0]), cs.skip(1))
    }
}

/// Every record of the sequence is replayable on the state reached when
/// it is applied.
pub open spec fn all_replayable(s: GridState, cs: Seq<Change>) -> bool
    decreases cs.len(),
{
    if cs.len() == 0 {
        true
    } else {
        change_replayable(s, cs[0]) && all_replayable(apply_change(s, cs[0]), cs.skip(1))
    }
}

/// Replay distributes over concatenation: replaying one tick's log and
/// then another's is replaying the combined log.
pub proof fn lemma_replay_append(s: GridState, a: Seq<Change>, b: Seq<Change>)
    ensures
        replay(s, a + b) == replay(replay(s, a), b),
    decreases a.len(),
{
    if a.len() == 0 {
        assert(a + b =~= b);
    } else {
        assert((a + b)[0] == a[0]);
        assert((a + b).skip(1) =~= a.skip(1) + b);
        lemma_replay_append(apply_change(s, a[0]), a.skip(1), b);
    }
}

/// Replayability splits over concatenation: a combined log is replayable
/// exactly when the first part is and the second part is from the state
/// the first part reaches.
pub proof fn lemma_all_replayable_append(s: GridState, a: Seq<Change>, b: Seq<Change>)
    ensures
        all_replayable(s, a + b) == (all_replayable(s, a) && all_replayable(replay(s, a), b)),
    decreases a.len(),
{
    if a.len() == 0 {
        assert(a + b =~= b);
    } else {
        assert((a + b)[0] == a[0]);
        assert((a + b).skip(1) =~= a.skip(1) + b);
        lemma_all_replayable_append(apply_change(s, a[0]), a.skip(1), b);
    }
}

/// Replaying a single record is applying it.
pub proof fn lemma_replay_single(s: GridState, c: Change)
    ensures
        replay(s, seq![c]) == apply_change(s, c),
        all_replayable(s, seq![c]) == change_replayable(s, c),
{
    assert(seq![c].skip(1) =~= Seq::<Change>::empty());
    assert(replay(apply_change(s, c), Seq::<Change>::empty()) == apply_change(s, c));
    assert(all_replayable(apply_change(s, c), Seq::<Change>::empty()));
}

/// The number of occupied (non-sentinel) cells in a buffer.
pub open spec fn occ_count(cells: Seq<u32>) -> nat
    decreases cells.len(),
{
    if cells.len() == 0 {
        0
    } else {
        occ_count(cells.drop_last()) + if cells.last() != EMPTY {
            1nat
        } else {
            0nat
        }
    }
}

/// Writing one cell changes the occupied count by the occupancy of the
/// new value minus that of the old one.
pub proof fn lemma_occ_update(cells: Seq<u32>, i: int, v: u32)
    requires
        0 <= i < cells.len(),
    ensures
        occ_count(cells.update(i, v)) + (if cells[i] != EMPTY {
            1int
        } else {
            0int
        }) == occ_count(cells) + (if v != EMPTY {
            1int
        } else {
            0int
        }),
    decreases cells.len(),
{
    let u = cells.update(i, v);
    if i == cells.len() - 1 {
        assert(u.drop_last() =~= cells.drop_last());
        assert(u.last() == v);
    } else {
        lemma_occ_update(cells.drop_last(), i, v);
        assert(u.drop_last() =~= cells.drop_last().update(i, v));
        assert(u.last() == cells.last());
    }
}

/// Replaying one more record is applying it to the replayed state.
pub proof fn lemma_replay_push(s: GridState, cs: Seq<Change>, c: Change)
    ensures
        replay(s, cs.push(c)) == apply_change(replay(s, cs), c),
        all_replayable(s, cs) && change_replayable(replay(s, cs), c) ==> all_replayable(
            s,
            cs.push(c),
        ),
    decreases cs.len(),
{
    if cs.len() == 0 {
        assert(cs.push(c) =~= seq![c]);
        lemma_replay_single(s, c);
    } else {
        assert(cs.push(c)[0] == cs[0]);
        assert(cs.push(c).skip(1) =~= cs.skip(1).push(c));
        lemma_replay_push(apply_change(s, cs[0]), cs.skip(1), c);
    }
}

/// One more grain move extends a grain-moving sequence when, on the
/// state the sequence reaches, its source is occupied and its landing
/// cell empty.
pub proof fn lemma_grains_push(s: GridState, cs: Seq<Change>, c: Change)
    requires
        moves_grains(s, cs),
        match c {
            Change::Move(pos, d) => replay(s, cs).cells[pos as int] != EMPTY && replay(
                s,
                cs,
            ).cells[target_of(pos as int, replay(s, cs).width, d)] == EMPTY,
            _ => false,
        },
    ensures
        moves_grains(s, cs.push(c)),
    decreases cs.len(),
{
    if cs.len() == 0 {
        assert(cs.push(c) =~= seq![c]);
        assert(seq![c][0] == c);
        assert(seq![c].skip(1) =~= Seq::<Change>::empty());
        assert(replay(s, cs) == s);
        assert(moves_grains(apply_change(s, c), Seq::<Change>::empty()));
        assert(moves_grains(s, seq![c]));
    } else {
        assert(cs.push(c)[0] == cs[0]);
        assert(cs.push(c).skip(1) =~= cs.skip(1).push(c));
        assert(replay(s, cs) == replay(apply_change(s, cs[0]), cs.skip(1)));
        lemma_grains_push(apply_change(s, cs[0]), cs.skip(1), c);
        assert(moves_grains(apply_change(s, cs[0]), cs.skip(1).push(c)));
    }
}

/// How the active-bounds bookkeeping follows a tick's moves: the top
/// bound stays at or above every source row, the landing row of every
/// move stays within scan reach of the bottom bound, and the column
/// bounds track the moves the way the scan records them — a straight
/// drop keeps its column active on both sides; a sideways step extends
/// the bound on the side it stepped to.
pub open spec fn bounds_track(g: Grid, moves: Seq<Change>) -> bool {
    forall|k: int|
        0 <= k < moves.len() ==> {
            let src = move_src(#[trigger] moves[k]);
            let row = src / g.spec_width();
            let col = src % g.spec_width();
            &&& g.active_top() <= row
            &&& (row + 1 <= g.spec_height() - 2 ==> row + 1 <= g.active_bottom())
            &&& (match move_dir(moves[k]) {
                Direction::Down => g.active_left() <= col <= g.active_right(),
                Direction::DownLeft => g.active_left() <= col - 1,
                Direction::DownRight => col + 1 <= g.active_right(),
            })
        }
}

/// What one gravity step guarantees, bundled: the new state is the old
/// one with this tick's move records replayed — real grains, each moved
/// at most once, every move one row down and at most one column aside,
/// none created or destroyed — and motion was reported exactly when a
/// record was emitted.
pub open spec fn gravity_step(
    pre: GridState,
    post: GridState,
    moves: Seq<Change>,
    moved: bool,
) -> bool {
    &&& replay(pre, moves) == post
    &&& all_replayable(pre, moves)
    &&& moves_grains(pre, moves)
    &&& one_move_each(moves, pre.width)
    &&& (forall|k: int|
        0 <= k < moves.len() ==> move_local(#[trigger] moves[k], pre.width, pre.height))
    &&& occ_count(post.cells) == occ_count(pre.cells)
    &&& moved == (moves.len() > 0)
}

/// An integer offset that falls inside the brush disc of radius `r`: the
/// bounding square has side `2r - 1`, and the offset's squared distance
/// from the center is at most `r` squared.
pub open spec fn in_disc(dx: int, dy: int, r: int) -> bool {
    &&& -(r - 1) <= dx <= r - 1
    &&& -(r - 1) <= dy <= r - 1
    &&& dx * dx + dy * dy <= r * r
}

/// Whether the brush disc centered at `(cx, cy)` with radius `r` covers
/// the cell at flat index `i` of a `w`-wide grid.
pub open spec fn disc_covers(cx: int, cy: int, r: int, w: int, i: int) -> bool {
    in_disc(i % w - cx, i / w - cy, r)
}

/// The cell buffer a spawn around `(cx, cy)` with radius `r` must leave:
/// covered empty cells take `color`, everything else stays untouched.
pub open spec fn spawn_result(s: GridState, cx: int, cy: int, r: int, color: u32) -> Seq<u32> {
    Seq::new(
        s.cells.len(),
        |i: int|
            if disc_covers(cx, cy, r, s.width, i) && s.cells[i] == EMPTY {
                color
            } else {
                s.cells[i]
            },
    )
}

/// Whether a spawn around `(cx, cy)` with radius `r` places anything: the
/// disc covers some in-bounds empty cell.
pub open spec fn spawn_places(s: GridState, cx: int, cy: int, r: int) -> bool {
    exists|i: int|
        0 <= i < s.cells.len() && #[trigger] disc_covers(cx, cy, r, s.width, i) && s.cells[i]
            == EMPTY
}

/// Whether offset `off` from center `(cx, cy)` lands on flat index `i` of
/// a `w` x `h` grid.
pub(crate) open spec fn off_hits(off: (i32, i32), cx: int, cy: int, w: int, h: int, i: int) -> bool {
    let x = cx + off.0;
    let y = cy + off.1;
    0 <= x < w && 0 <= y < h && i == y * w + x
}

/// Whether one of the first `n` offsets lands on flat index `i`.
pub(crate) open spec fn covered_by(offs: Seq<(i32, i32)>, n: int, cx: int, cy: int, w: int, h: int, i: int) -> bool {
    exists|k: int| 0 <= k < n && off_hits(#[trigger] offs[k], cx, cy, w, h, i)
}

/// All integer offsets inside the brush disc of radius `radius`, each
/// exactly once: the bounding square of side `2 * radius - 1` is scanned
/// row by row, keeping the offsets whose squared distance from the center
/// is at most the radius squared.
pub fn circle_offsets(radius: u16) -> (offs: Vec<(i32, i32)>)
    requires
        1 <= radius,
    ensures
        forall|k: int|
            0 <= k < offs@.len() ==> in_disc(
                (#[trigger] offs@[k]).0 as int,
                offs@[k].1 as int,
                radius as int,
            ),
        forall|dx: int, dy: int|
            #[trigger] in_disc(dx, dy, radius as int) ==> offs@.contains(
                (dx as i32, dy as i32),
            ),
        forall|k1: int, k2: int| 0 <= k1 < k2 < offs@.len() ==> offs@[k1] != offs@[k2],
        forall|k1: int, k2: int|
            0 <= k1 < k2 < offs@.len() ==> ((#[trigger] offs@[k1]).1 < (#[trigger] offs@[k2]).1
                || (offs@[k1].1 == offs@[k2].1 && offs@[k1].0 < offs@[k2].0)),
        offs@.len() <= (2 * radius - 1) * (2 * radius - 1),
{
    let rc = radius as i32;
    let ghost r = radius as int;
    let mut offs: Vec<(i32, i32)> = Vec::new();
    let mut y: i32 = 1 - rc;
    while y < rc
        invariant
            1 <= rc <= 0xFFFF,
            rc == radius as int,
            r == radius as int,
            1 - rc <= y <= rc,
            offs@.len() <= (y - (1 - rc)) * (2 * rc - 1),
            forall|k: int|
                0 <= k < offs@.len() ==> in_disc(
                    (#[trigger] offs@[k]).0 as int,
                    offs@[k].1 as int,
                    r,
                ),
            forall|k: int| 0 <= k < offs@.len() ==> (#[trigger] offs@[k]).1 < y,
            forall|k1: int, k2: int|
                0 <= k1 < k2 < offs@.len() ==> ((#[trigger] offs@[k1]).1 < (
                #[trigger] offs@[k2]).1 || (offs@[k1].1 == offs@[k2].1 && offs@[k1].0
                    < offs@[k2].0)),
            forall|dx: int, dy: int|
                #[trigger] in_disc(dx, dy, r) && dy < y ==> offs@.contains((dx as i32, dy as i32)),
        decreases rc - y,
    {
        let mut x: i32 = 1 - rc;
        while x < rc
            invariant
                1 <= rc <= 0xFFFF,
                rc == radius as int,
                r == radius as int,
                1 - rc <= y < rc,
                1 - rc <= x <= rc,
                offs@.len() <= (y - (1 - rc)) * (2 * rc - 1) + (x - (1 - rc)),
                forall|k: int|
                    0 <= k < offs@.len() ==> in_disc(
                        (#[trigger] offs@[k]).0 as int,
                        offs@[k].1 as int,
                        r,
                    ),
                forall|k: int|
                    0 <= k < offs@.len() ==> ((#[trigger] offs@[k]).1 < y || (offs@[k].1 == y
                        && offs@[k].0 < x)),
                forall|k1: int, k2: int|
                    0 <= k1 < k2 < offs@.len() ==> ((#[trigger] offs@[k1]).1 < (
                    #[trigger] offs@[k2]).1 || (offs@[k1].1 == offs@[k2].1 && offs@[k1].0
                        < offs@[k2].0)),
                forall|dx: int, dy: int|
                    #[trigger] in_disc(dx, dy, r) && (dy < y || (dy == y && dx < x))
                        ==> offs@.contains((dx as i32, dy as i32)),
            decreases rc - x,
        {
            proof {
                assert(0 <= (x as i64) * (x as i64) <= 0x1_0000_0000 && 0 <= (y as i64) * (
                y as i64) <= 0x1_0000_0000 && 0 <= (rc as i64) * (rc as i64) <= 0x1_0000_0000)
                    by (nonlinear_arith)
                    requires
                        -0x10000 <= x as i64 <= 0x10000,
                        -0x10000 <= y as i64 <= 0x10000,
                        0 <= rc as i64 <= 0x10000,
                ;
            }
            let d2 = (x as i64) * (x as i64) + (y as i64) * (y as i64);
            let ghost before = offs@;
            if d2 <= (rc as i64) * (rc as i64) {
                offs.push((x, y));
                proof {
                    assert(offs@[before.len() as int] == (x, y));
                    assert(forall|k: int|
                        0 <= k < before.len() ==> offs@[k] == #[trigger] before[k]);
                }
            }
            x = x + 1;
            proof {
                assert forall|dx: int, dy: int|
                    #[trigger] in_disc(dx, dy, r) && (dy < y || (dy == y && dx < x)) implies offs@
                    .contains((dx as i32, dy as i32)) by {
                    if dy == y && dx == x - 1 {
                        if d2 <= (rc as i64) * (rc as i64) {
                            assert(offs@[before.len() as int] == (dx as i32, dy as i32));
                        } else {
                            assert(!in_disc(dx, dy, r));
                        }
                    } else {
                        assert(before.contains((dx as i32, dy as i32)));
                        let k = choose|k: int|
                            0 <= k < before.len() && before[k] == (dx as i32, dy as i32);
                        assert(offs@[k] == (dx as i32, dy as i32));
                    }
                }
            }
        }
        proof {
            assert((y - (1 - rc)) * (2 * rc - 1) + (2 * rc - 1) == (y + 1 - (1 - rc)) * (2 * rc
                - 1)) by (nonlinear_arith);
        }
        y = y + 1;
    }
    proof {
        assert((rc - (1 - rc)) * (2 * rc - 1) == (2 * rc - 1) * (2 * rc - 1))
            by (nonlinear_arith);
        assert((2 * (rc as int) - 1) * (2 * (rc as int) - 1) == (2 * (radius as int) - 1) * (2 * (
        radius as int) - 1)) by (nonlinear_arith)
            requires
                rc as int == radius as int,
        ;
    }
    offs
}

/// Movement locality: a move record that fits the grid (as every record
/// the gravity step emits does, by `update`'s contract) takes its cell to
/// the row directly below, shifting its column by at most one.
pub proof fn lemma_move_locality(c: Change, width: int, height: int)
    requires
        move_local(c, width, height),
        1 <= width,
    ensures
        c matches Change::Move(pos, d) ==> {
            let t = target_of(pos as int, width, d);
            &&& t / width == (pos as int) / width + 1
            &&& -1 <= t % width - (pos as int) % width <= 1
        },
{
    if let Change::Move(pos, d) = c {
        let p = pos as int;
        assert(height >= 2 && 0 <= p < (height - 1) * width) by (nonlinear_arith)
            requires
                0 <= p < width * (height - 1),
                1 <= width,
        ;
        lemma_div_bounds(p, width, height - 1);
        let y = p / width;
        let x = p % width;
        let t = target_of(p, width, d);
        match d {
            Direction::Down => {
                assert(t == (y + 1) * width + x) by (nonlinear_arith)
                    requires
                        p == y * width + x,
                        t == p + width,
                ;
                lemma_rowcol(t, width, y + 1, x);
            },
            Direction::DownLeft => {
                assert(t == (y + 1) * width + (x - 1)) by (nonlinear_arith)
                    requires
                        p == y * width + x,
                        t == p + width - 1,
                ;
                lemma_rowcol(t, width, y + 1, x - 1);
            },
            Direction::DownRight => {
                assert(t == (y + 1) * width + (x + 1)) by (nonlinear_arith)
                    requires
                        p == y * width + x,
                        t == p + width + 1,
                ;
                lemma_rowcol(t, width, y + 1, x + 1);
            },
        }
    }
}

/// Spawn idempotence: when every in-bounds cell the brush disc covers is
/// already occupied, a spawn places nothing and leaves every cell as it
/// was.
pub proof fn lemma_spawn_on_full(s: GridState, cx: int, cy: int, r: int, color: u32)
    requires
        forall|i: int|
            0 <= i < s.cells.len() && #[trigger] disc_covers(cx, cy, r, s.width, i) ==> s.cells[i]
                != EMPTY,
    ensures
        !spawn_places(s, cx, cy, r),
        spawn_result(s, cx, cy, r, color) == s.cells,
{
    assert(spawn_result(s, cx, cy, r, color) =~= s.cells);
}

/// The grid.  `colors` is the row-major cell buffer; the four bound
/// fields frame the sub-region the gravity scan still has to visit.
pub struct Grid {
    width: u16,
    height: u16,
    radius: u16,
    pub colors: Vec<u32>,
    rng: fastrand::Rng,
    highest_row: u16,
    lowest_row: u16,
    left_skip: u16,
    right_skip: u16,
    log: Changelist,
}

impl Grid {
    /// The dimensions and cells, as the replay model sees them.
    pub closed spec fn state(self) -> GridState {
        GridState { width: self.width as int, height: self.height as int, cells: self.colors@ }
    }

    pub open spec fn spec_width(self) -> int {
        self.state().width
    }

    pub open spec fn spec_height(self) -> int {
        self.state().height
    }

    /// The cell buffer, as a sequence.
    pub open spec fn cells(self) -> Seq<u32> {
        self.state().cells
    }

    /// The brush radius, in cells.
    pub closed spec fn spec_radius(self) -> int {
        self.radius as int
    }

    /// The encoded words of the per-tick change log.
    pub closed spec fn log_words(self) -> Seq<u32> {
        self.log.changes@
    }

    /// The records of the per-tick change log.
    pub open spec fn log(self) -> Seq<Change> {
        decode_words(self.log_words()).unwrap()
    }

    /// Topmost row of the tracked active region.
    pub closed spec fn active_top(self) -> int {
        self.highest_row as int
    }

    /// Bottommost row of the tracked active region.
    pub closed spec fn active_bottom(self) -> int {
        self.lowest_row as int
    }

    /// Leftmost column of the tracked active region.
    pub closed spec fn active_left(self) -> int {
        self.left_skip as int
    }

    /// Rightmost column of the tracked active region.
    pub closed spec fn active_right(self) -> int {
        self.right_skip as int
    }

    /// Well-formedness: positive dimensions within the change-log encoding
    /// capacity, a buffer of exactly width x height cells, active bounds
    /// inside the grid, and a log that decodes.
    pub open spec fn wf(self) -> bool {
        &&& 1 <= self.spec_width()
        &&& 1 <= self.spec_height()
        &&& self.spec_width() * self.spec_height() <= MAX_CELLS
        &&& self.cells().len() == self.spec_width() * self.spec_height()
        &&& self.active_top() <= self.spec_height()
        &&& (self.spec_height() >= 2 ==> self.active_bottom() <= self.spec_height() - 2)
        &&& (self.spec_height() < 2 ==> self.active_bottom() == 0)
        &&& self.active_left() < self.spec_width()
        &&& self.active_right() < self.spec_width()
        &&& 1 <= self.spec_radius()
        &&& decode_words(self.log_words()).is_some()
    }

    /// The tracked active region covers every row and column the gravity
    /// scan can ever visit: the full scan range.
    pub open spec fn fully_active(self) -> bool {
        &&& self.active_top() == 0
        &&& self.active_bottom() == if self.spec_height() >= 2 {
            self.spec_height() - 2
        } else {
            0int
        }
        &&& self.active_left() == 0
        &&& self.active_right() == self.spec_width() - 1
    }

    /// A position the coming gravity scan is bound to act on: inside the
    /// tracked active region, with at least three rows in the grid, an
    /// occupied cell sits directly above an empty one.
    pub open spec fn scan_hits(self, r: int, c: int) -> bool {
        &&& self.spec_height() >= 3
        &&& self.active_top() <= r <= self.active_bottom()
        &&& self.active_left() <= c <= self.active_right()
        &&& fall_ready(self.cells(), self.spec_width(), r, c)
    }

    /// The tracked active region reaches the cell in column `x`, row `y`,
    /// as far as the gravity scan can reach it at all: the bottom row is
    /// never scanned, so it is not asked of the bottom bound.
    pub open spec fn active_covers(self, x: int, y: int) -> bool {
        &&& self.active_top() <= y
        &&& (y <= self.spec_height() - 2 ==> y <= self.active_bottom())
        &&& self.active_left() <= x <= self.active_right()
    }

    /// A fresh 800 x 600 grid: all cells empty, the default brush radius,
    /// an empty change log, and the whole grid marked active.
    pub fn new() -> (g: Grid)
        ensures
            g.wf(),
            g.spec_width() == DEFAULT_WIDTH as int,
            g.spec_height() == DEFAULT_HEIGHT as int,
            forall|i: int| 0 <= i < g.cells().len() ==> g.cells()[i] == EMPTY,
            g.log() == Seq::<Change>::empty(),
            g.fully_active(),
            g.spec_radius() == 8,
    {
        let radius = RadiusId::default().get();
        let n: usize = 480000;
        proof {
            assert(n == DEFAULT_WIDTH as int * DEFAULT_HEIGHT as int) by (nonlinear_arith)
                requires
                    n == 480000,
            ;
        }
        Grid {
            width: DEFAULT_WIDTH,
            height: DEFAULT_HEIGHT,
            radius,
            colors: vec![EMPTY; n],
            rng: rng_new(),
            highest_row: 0,
            lowest_row: DEFAULT_HEIGHT - 2,
            left_skip: 0,
            right_skip: DEFAULT_WIDTH - 1,
            log: Changelist::new(),
        }
    }

    /// Whether the cell at flat index `a` is empty.
    pub fn is_empty(&self, a: u32) -> (r: bool)
        requires
            a < self.cells().len(),
        ensures
            r == (self.cells()[a as int] == EMPTY),
    {
        self.colors[a as usize] == EMPTY
    }

    /// Writes a color into an empty cell.  The raw write: it does not log
    /// a record and does not touch the active bounds.
    pub fn set_pixel(&mut self, a: u32, color: u32)
        requires
            a < old(self).cells().len(),
            old(self).cells()[a as int] == EMPTY,
        ensures
            final(self).cells() == old(self).cells().update(a as int, color),
            final(self).spec_width() == old(self).spec_width(),
            final(self).spec_height() == old(self).spec_height(),
            final(self).spec_radius() == old(self).spec_radius(),
            final(self).log_words() == old(self).log_words(),
            final(self).active_top() == old(self).active_top(),
            final(self).active_bottom() == old(self).active_bottom(),
            final(self).active_left() == old(self).active_left(),
            final(self).active_right() == old(self).active_right(),
    {
        self.colors.set(a as usize, color);
    }

    /// Moves the color at `a` to the empty cell `b`, leaving `a` empty.
    fn move_(&mut self, a: u32, b: u32)
        requires
            a < old(self).cells().len(),
            b < old(self).cells().len(),
            a != b,
        ensures
            final(self).cells() == old(self).cells().update(b as int, old(self).cells()[a as int])
                .update(a as int, EMPTY),
            final(self).spec_width() == old(self).spec_width(),
            final(self).spec_height() == old(self).spec_height(),
            final(self).spec_radius() == old(self).spec_radius(),
            final(self).log_words() == old(self).log_words(),
            final(self).active_top() == old(self).active_top(),
            final(self).active_bottom() == old(self).active_bottom(),
            final(self).active_left() == old(self).active_left(),
            final(self).active_right() == old(self).active_right(),
    {
        let v = self.colors[a as usize];
        self.colors.set(b as usize, v);
        self.colors.set(a as usize, EMPTY);
    }

    /// Lets the occupied cell at `i` (in column `column`) fall one row if
    /// it can: straight down first, then down-left (if not at the left
    /// edge), then down-right (if not at the right edge).  On a move, the
    /// cell's color moves to the empty target, the source becomes empty,
    /// and a `Move` record is logged.
    fn update_pixel(&mut self, i: u32, column: u16) -> (moved: Option<Direction>)
        requires
            old(self).wf(),
            (i as int) < old(self).spec_width() * (old(self).spec_height() - 1),
            column as int == i as int % old(self).spec_width(),
            old(self).cells()[i as int] != EMPTY,
        ensures
            final(self).wf(),
            final(self).spec_width() == old(self).spec_width(),
            final(self).spec_height() == old(self).spec_height(),
            final(self).spec_radius() == old(self).spec_radius(),
            final(self).active_top() == old(self).active_top(),
            final(self).active_bottom() == old(self).active_bottom(),
            final(self).active_left() == old(self).active_left(),
            final(self).active_right() == old(self).active_right(),
            final(self).cells().len() == old(self).cells().len(),
            occ_count(final(self).cells()) == occ_count(old(self).cells()),
            match moved {
                None => {
                    &&& final(self).state() == old(self).state()
                    &&& final(self).log_words() == old(self).log_words()
                    &&& old(self).cells()[i as int + old(self).spec_width()] != EMPTY
                    &&& (column > 0 ==> old(self).cells()[i as int + old(self).spec_width()
                        - 1] != EMPTY)
                    &&& ((column as int) < old(self).spec_width() - 1 ==> old(self).cells()[i as int
                        + old(self).spec_width() + 1] != EMPTY)
                },
                Some(d) => {
                    let c = Change::Move(i as usize, d);
                    &&& change_valid(c)
                    &&& move_local(c, old(self).spec_width(), old(self).spec_height())
                    &&& change_replayable(old(self).state(), c)
                    &&& old(self).cells()[target_of(
                        i as int,
                        old(self).spec_width(),
                        d,
                    )] == EMPTY
                    &&& final(self).state() == apply_change(old(self).state(), c)
                    &&& final(self).log_words() == old(self).log_words() + encode_change(c)
                    &&& (d == Direction::DownLeft ==> old(self).cells()[i as int + old(
                        self,
                    ).spec_width()] != EMPTY)
                    &&& (d == Direction::DownRight ==> old(self).cells()[i as int + old(
                        self,
                    ).spec_width()] != EMPTY && (column == 0 || old(self).cells()[i as int + old(
                        self,
                    ).spec_width() - 1] != EMPTY))
                },
            },
    {
        let ghost s = old(self).state();
        let ghost w = s.width;
        let ghost h = s.height;
        let ghost y = i as int / w;
        proof {
            assert(h >= 2 && 0 <= (i as int) < (h - 1) * w) by (nonlinear_arith)
                requires
                    (i as int) < w * (h - 1),
                    1 <= w,
                    1 <= h,
            ;
            lemma_div_bounds(i as int, w, h - 1);
            assert(i as int == y * w + column);
            lemma_idx_bound(y + 1, column as int, w, h);
            assert(h * w == w * h) by (nonlinear_arith);
            if (column as int) < w - 1 {
                lemma_idx_bound(y + 1, column as int + 1, w, h);
            }
            if column > 0 {
                lemma_idx_bound(y + 1, column as int - 1, w, h);
            }
            assert((y + 1) * w + column == i as int + w) by (nonlinear_arith)
                requires
                    i as int == y * w + column,
            ;
        }
        let below = i + self.width as u32;
        let below_left = below - 1;
        let below_right = below + 1;
        if self.is_empty(below) {
            self.move_(i, below);
            self.log.move_pixel(i as usize, Direction::Down);
            proof {
                self.lemma_moved(*old(self), i, column, Direction::Down);
            }
            Some(Direction::Down)
        } else if column != 0 && self.is_empty(below_left) {
            self.move_(i, below_left);
            self.log.move_pixel(i as usize, Direction::DownLeft);
            proof {
                self.lemma_moved(*old(self), i, column, Direction::DownLeft);
            }
            Some(Direction::DownLeft)
        } else if column != self.width - 1 && self.is_empty(below_right) {
            self.move_(i, below_right);
            self.log.move_pixel(i as usize, Direction::DownRight);
            proof {
                self.lemma_moved(*old(self), i, column, Direction::DownRight);
            }
            Some(Direction::DownRight)
        } else {
            None
        }
    }

    /// The bookkeeping behind one successful move: the new state is the
    /// old one with the record applied, the log grew by that record, and
    /// the occupied count is unchanged.
    proof fn lemma_moved(self, pre: Grid, i: u32, column: u16, d: Direction)
        requires
            pre.wf(),
            (i as int) < pre.spec_width() * (pre.spec_height() - 1),
            column as int == i as int % pre.spec_width(),
            pre.cells()[i as int] != EMPTY,
            d == Direction::DownLeft ==> column > 0,
            d == Direction::DownRight ==> (column as int) < pre.spec_width() - 1,
            0 <= target_of(i as int, pre.spec_width(), d) < pre.cells().len(),
            pre.cells()[target_of(i as int, pre.spec_width(), d)] == EMPTY,
            self.state().width == pre.state().width,
            self.state().height == pre.state().height,
            self.spec_radius() == pre.spec_radius(),
            self.active_top() == pre.active_top(),
            self.active_bottom() == pre.active_bottom(),
            self.active_left() == pre.active_left(),
            self.active_right() == pre.active_right(),
            self.cells() == pre.cells().update(
                target_of(i as int, pre.spec_width(), d),
                pre.cells()[i as int],
            ).update(i as int, EMPTY),
            self.log_words() == pre.log_words() + encode_change(Change::Move(i as usize, d)),
        ensures
            self.wf(),
            change_valid(Change::Move(i as usize, d)),
            move_local(Change::Move(i as usize, d), pre.spec_width(), pre.spec_height()),
            change_replayable(pre.state(), Change::Move(i as usize, d)),
            self.state() == apply_change(pre.state(), Change::Move(i as usize, d)),
            occ_count(self.cells()) == occ_count(pre.cells()),
    {
        let w = pre.spec_width();
        let h = pre.spec_height();
        let c = Change::Move(i as usize, d);
        let t = target_of(i as int, w, d);
        assert(h >= 2 && 0 <= (i as int) < (h - 1) * w) by (nonlinear_arith)
            requires
                (i as int) < w * (h - 1),
                1 <= w,
                1 <= h,
        ;
        lemma_div_bounds(i as int, w, h - 1);
        assert((i as usize) as int == i as int);
        assert(move_local(c, w, h));
        assert(t != i as int);
        let mid = pre.cells().update(t, pre.cells()[i as int]);
        lemma_occ_update(pre.cells(), t, pre.cells()[i as int]);
        lemma_occ_update(mid, i as int, EMPTY);
        assert(mid[i as int] == pre.cells()[i as int]);
        lemma_decode_push(pre.log_words(), c);
        assert(self.state() =~~= apply_change(pre.state(), c));
    }

    /// One gravity tick: processes the tracked active rows from the bottom
    /// of the range upward; within each row the active columns are visited
    /// in a direction chosen at random per row, and each occupied cell
    /// takes the first free target among down, down-left, down-right, in
    /// that fixed priority.  Appends one `Move` record per movement,
    /// adjusts the active bounds, and returns whether anything moved.
    /// With fewer than three rows the scan range is empty and nothing
    /// happens.
    pub fn update(&mut self) -> (updated: bool)
        requires
            old(self).wf(),
        ensures
            final(self).wf(),
            final(self).spec_width() == old(self).spec_width(),
            final(self).spec_height() == old(self).spec_height(),
            final(self).spec_radius() == old(self).spec_radius(),
            final(self).cells().len() == old(self).cells().len(),
            occ_count(final(self).cells()) == occ_count(old(self).cells()),
            final(self).log().len() >= old(self).log().len(),
            final(self).log().take(old(self).log().len() as int) == old(self).log(),
            replay(
                old(self).state(),
                final(self).log().skip(old(self).log().len() as int),
            ) == final(self).state(),
            all_replayable(old(self).state(), final(self).log().skip(old(self).log().len() as int)),
            forall|k: int|
                old(self).log().len() <= k < final(self).log().len() ==> move_local(
                    #[trigger] final(self).log()[k],
                    old(self).spec_width(),
                    old(self).spec_height(),
                ),
            updated == (final(self).log().len() > old(self).log().len()),
            gravity_step(
                old(self).state(),
                final(self).state(),
                final(self).log().skip(old(self).log().len() as int),
                updated,
            ),
            bounds_track(*final(self), final(self).log().skip(old(self).log().len() as int)),
            (exists|r: int, c: int| old(self).scan_hits(r, c)) ==> updated,
            old(self).spec_height() < 3 ==> !updated && *final(self) == *old(self),
    {
        if self.height < 3 {
            proof {
                if exists|r: int, c: int| old(self).scan_hits(r, c) {
                    let (r, c) = choose|r: int, c: int| old(self).scan_hits(r, c);
                    assert(false);
                }
                let ol = self.log().len() as int;
                assert(self.log().take(ol) =~= self.log());
                assert(self.log().skip(ol) =~= Seq::<Change>::empty());
                assert(moves_grains(self.state(), Seq::<Change>::empty()));
                assert(all_replayable(self.state(), Seq::<Change>::empty()));
            }
            return false;
        }
        let ghost s0 = self.state();
        let ghost w = s0.width;
        let ghost h = s0.height;
        let ghost old_words = self.log.changes@;
        let ghost old_log = decode_words(old_words).unwrap();
        let mut updated = false;
        let ghost mut ds: Seq<Change> = Seq::empty();
        proof {
            assert(old_log + ds =~= old_log);
            assert(moves_grains(s0, ds));
            assert(all_replayable(s0, ds));
        }
        let mut lowest_tracker: u16 = 0;
        let mut most_left: u16 = self.width - 1;
        let mut most_right: u16 = 0;
        let top = self.highest_row;
        let bot = self.lowest_row;
        if top <= bot {
            let n_rows = bot - top + 1;
            let mut ri: u16 = 0;
            while ri < n_rows
                invariant
                    old(self).wf(),
                    s0 == old(self).state(),
                    w == s0.width,
                    h == s0.height,
                    1 <= w,
                    3 <= h,
                    w * h <= MAX_CELLS,
                    s0.cells.len() == w * h,
                    old_words == old(self).log_words(),
                    decode_words(old_words).is_some(),
                    old_log == decode_words(old_words).unwrap(),
                    ri <= n_rows,
                    n_rows == bot - top + 1,
                    top <= bot,
                    bot as int <= h - 2,
                    self.wf(),
                    self.state().width == w,
                    self.state().height == h,
                    self.spec_radius() == old(self).spec_radius(),
                    self.cells().len() == s0.cells.len(),
                    self.active_bottom() == bot as int,
                    self.active_left() == old(self).active_left(),
                    self.active_right() == old(self).active_right(),
                    most_left as int <= w - 1,
                    most_right as int <= w - 1,
                    decode_words(self.log_words()) == Some(old_log + ds),
                    replay(s0, ds) == self.state(),
                    all_replayable(s0, ds),
                    moves_grains(s0, ds),
                    one_move_each(ds, w),
                    forall|k: int| 0 <= k < ds.len() ==> move_local(#[trigger] ds[k], w, h),
                    forall|k: int|
                        0 <= k < ds.len() ==> bot - ri < move_src(#[trigger] ds[k]) / w,
                    forall|k: int|
                        0 <= k < ds.len() ==> self.active_top() <= move_src(#[trigger] ds[k]) / w,
                    top == 0 && ri < n_rows ==> self.active_top() == 0,
                    forall|k: int|
                        0 <= k < ds.len() ==> move_src(#[trigger] ds[k]) / w + 1 <= lowest_tracker,
                    forall|k: int|
                        0 <= k < ds.len() ==> ({
                            let col = move_src(#[trigger] ds[k]) % w;
                            match move_dir(ds[k]) {
                                Direction::Down => most_left <= col <= most_right,
                                Direction::DownLeft => most_left <= col - 1,
                                Direction::DownRight => col + 1 <= most_right,
                            }
                        }),
                    occ_count(self.cells()) == occ_count(s0.cells),
                    updated == (ds.len() > 0),
                    ds.len() == 0 ==> forall|r: int, c: int|
                        bot - ri < r <= bot && old(self).active_left() <= c <= old(
                            self,
                        ).active_right() ==> !#[trigger] fall_ready(s0.cells, w, r, c),
                decreases n_rows - ri,
            {
                let row = bot - ri;
                let go_right = rng_bool(&mut self.rng);
                let left = self.left_skip;
                let right = self.right_skip;
                let mut updated_this_row = false;
                if left <= right {
                    let n_cols = right - left + 1;
                    let mut t: u16 = 0;
                    while t < n_cols
                        invariant
                            old(self).wf(),
                            s0 == old(self).state(),
                            w == s0.width,
                            h == s0.height,
                            1 <= w,
                            3 <= h,
                            w * h <= MAX_CELLS,
                            s0.cells.len() == w * h,
                            old_words == old(self).log_words(),
                            decode_words(old_words).is_some(),
                            old_log == decode_words(old_words).unwrap(),
                            t <= n_cols,
                            n_cols == right - left + 1,
                            left <= right,
                            right as int <= w - 1,
                            top <= row,
                            row <= bot,
                            bot as int <= h - 2,
                            self.wf(),
                            self.state().width == w,
                            self.state().height == h,
                            self.spec_radius() == old(self).spec_radius(),
                            self.cells().len() == s0.cells.len(),
                            self.active_bottom() == bot as int,
                            self.active_left() == old(self).active_left(),
                            self.active_right() == old(self).active_right(),
                            most_left as int <= w - 1,
                            most_right as int <= w - 1,
                            decode_words(self.log_words()) == Some(old_log + ds),
                            replay(s0, ds) == self.state(),
                            all_replayable(s0, ds),
                            moves_grains(s0, ds),
                            one_move_each(ds, w),
                            forall|k: int|
                                0 <= k < ds.len() ==> move_local(#[trigger] ds[k], w, h),
                            forall|k: int|
                                0 <= k < ds.len() ==> row <= move_src(#[trigger] ds[k]) / w,
                            forall|k: int|
                                0 <= k < ds.len() && row < move_src(#[trigger] ds[k]) / w
                                    ==> self.active_top() <= move_src(ds[k]) / w,
                            top == 0 && ri < n_rows ==> self.active_top() == 0,
                            ri < n_rows,
                            n_rows == bot - top + 1,
                            row == 0 ==> top == 0,
                            forall|k: int|
                                0 <= k < ds.len() && row < move_src(#[trigger] ds[k]) / w
                                    ==> move_src(ds[k]) / w + 1 <= lowest_tracker,
                            forall|k: int|
                                0 <= k < ds.len() && move_src(#[trigger] ds[k]) / w == row
                                    ==> updated_this_row,
                            forall|k: int|
                                0 <= k < ds.len() && move_src(#[trigger] ds[k]) / w == row
                                    ==> (if go_right {
                                    left <= move_src(ds[k]) % w < left + t
                                } else {
                                    right - t < move_src(ds[k]) % w <= right
                                }),
                            forall|k: int|
                                0 <= k < ds.len() ==> ({
                                    let col = move_src(#[trigger] ds[k]) % w;
                                    match move_dir(ds[k]) {
                                        Direction::Down => most_left <= col <= most_right,
                                        Direction::DownLeft => most_left <= col - 1,
                                        Direction::DownRight => col + 1 <= most_right,
                                    }
                                }),
                            occ_count(self.cells()) == occ_count(s0.cells),
                            updated == (ds.len() > 0),
                            updated_this_row ==> updated,
                            row == bot - ri,
                            left as int == old(self).active_left(),
                            right as int == old(self).active_right(),
                            ds.len() == 0 ==> forall|r: int, c: int|
                                row < r <= bot && left <= c <= right ==> !#[trigger] fall_ready(
                                    s0.cells,
                                    w,
                                    r,
                                    c,
                                ),
                            ds.len() == 0 ==> forall|c: int|
                                (if go_right {
                                    left <= c < left + t
                                } else {
                                    right - t < c <= right
                                }) ==> !#[trigger] fall_ready(s0.cells, w, row as int, c),
                        decreases n_cols - t,
                    {
                        let column = if go_right {
                            left + t
                        } else {
                            right - t
                        };
                        proof {
                            lemma_idx_bound(row as int, column as int, w, h);
                            lemma_idx_bound(row as int, column as int, w, h - 1);
                            assert(h * w == w * h && (h - 1) * w == w * (h - 1))
                                by (nonlinear_arith);
                            lemma_rowcol(
                                (row as int) * w + (column as int),
                                w,
                                row as int,
                                column as int,
                            );
                        }
                        let i: u32 = (row as u32) * (self.width as u32) + (column as u32);
                        if !self.is_empty(i) {
                            let ghost pre = self.state();
                            let ghost wb = self.log.changes@;
                            let moved = self.update_pixel(i, column);
                            proof {
                                if moved is Some {
                                    let d = moved.unwrap();
                                    let c = Change::Move(i as usize, d);
                                    lemma_decode_push(wb, c);
                                    assert(old_log + ds.push(c) =~= (old_log + ds).push(c));
                                    lemma_replay_push(s0, ds, c);
                                    lemma_grains_push(s0, ds, c);
                                    assert(move_src(c) == i as int);
                                    assert forall|k1: int, k2: int|
                                        #![trigger ds.push(c)[k1], ds.push(c)[k2]]
                                        0 <= k1 < k2 < ds.push(c).len() implies move_src(
                                        ds.push(c)[k2],
                                    ) != move_src(ds.push(c)[k1]) && move_src(ds.push(c)[k2])
                                        != move_tgt(ds.push(c)[k1], w) by {
                                        assert(ds.push(c)[k1] == ds[k1]);
                                        if k2 == ds.len() as int {
                                            let e1 = ds[k1];
                                            assert(move_local(e1, w, h));
                                            lemma_move_locality(e1, w, h);
                                            let src1 = move_src(e1);
                                            assert((h - 1) * w == w * (h - 1))
                                                by (nonlinear_arith);
                                            lemma_div_bounds(src1, w, h - 1);
                                            assert(move_tgt(e1, w) / w == src1 / w + 1);
                                            if src1 / w == row as int {
                                                assert(src1 % w != column as int);
                                                assert(src1 == (src1 / w) * w + src1 % w);
                                            }
                                        } else {
                                            assert(ds.push(c)[k2] == ds[k2]);
                                        }
                                    }
                                    ds = ds.push(c);
                                    assert(one_move_each(ds, w));
                                }
                            }
                            match moved {
                                Some(Direction::DownLeft) => {
                                    proof {
                                        assert((i as int) % w > 0);
                                    }
                                    let cl = column - 1;
                                    if cl < most_left {
                                        most_left = cl;
                                    }
                                    updated = true;
                                    updated_this_row = true;
                                },
                                Some(Direction::DownRight) => {
                                    proof {
                                        assert((i as int) % w < w - 1);
                                    }
                                    let cr = column + 1;
                                    if cr > most_right {
                                        most_right = cr;
                                    }
                                    updated = true;
                                    updated_this_row = true;
                                },
                                Some(Direction::Down) => {
                                    if column < most_left {
                                        most_left = column;
                                    }
                                    if column > most_right {
                                        most_right = column;
                                    }
                                    updated = true;
                                    updated_this_row = true;
                                },
                                None => {
                                    if column < most_left {
                                        most_left = column;
                                    }
                                    if column > most_right {
                                        most_right = column;
                                    }
                                },
                            }
                        }
                        proof {
                            if ds.len() == 0 {
                                assert(replay(s0, ds) == s0);
                                assert((row as int + 1) * w + column == (row as int) * w + column
                                    + w) by (nonlinear_arith);
                                assert(!fall_ready(s0.cells, w, row as int, column as int));
                            }
                        }
                        t = t + 1;
                    }
                }
                proof {
                    if ds.len() == 0 {
                        assert forall|r: int, c: int|
                            row - 1 < r <= bot && old(self).active_left() <= c <= old(
                                self,
                            ).active_right() implies !fall_ready(s0.cells, w, r, c) by {
                            if r == row as int {
                                assert(left <= right ==> !fall_ready(s0.cells, w, row as int, c));
                            }
                        }
                    }
                }
                proof {
                    if !updated_this_row {
                        assert forall|k: int|
                            0 <= k < ds.len() implies (row as int) < move_src(
                            #[trigger] ds[k],
                        ) / w by {
                            assert(move_src(ds[k]) / w == row as int ==> updated_this_row);
                        }
                    }
                    if updated_this_row && row == 0 {
                        assert(self.active_top() == 0);
                    }
                }
                if !updated_this_row && row == self.highest_row {
                    if self.highest_row < self.height {
                        self.highest_row = self.highest_row + 1;
                    }
                } else if updated_this_row {
                    if row > 0 && row - 1 < self.highest_row {
                        self.highest_row = row - 1;
                    }
                    let lr = row + 1;
                    if lr > lowest_tracker {
                        lowest_tracker = lr;
                    }
                }
                ri = ri + 1;
            }
        }
        let cap = self.height - 2;
        self.lowest_row = if lowest_tracker > cap {
            cap
        } else {
            lowest_tracker
        };
        self.left_skip = most_left;
        self.right_skip = if most_right > self.width - 1 {
            self.width - 1
        } else {
            most_right
        };
        proof {
            let fl = decode_words(self.log_words()).unwrap();
            assert(fl == old_log + ds);
            assert(fl.take(old_log.len() as int) =~= old_log);
            assert(fl.skip(old_log.len() as int) =~= ds);
            if exists|r: int, c: int| old(self).scan_hits(r, c) {
                let (r, c) = choose|r: int, c: int| old(self).scan_hits(r, c);
                if ds.len() == 0 {
                    assert(top <= bot);
                    assert(!fall_ready(s0.cells, w, r, c));
                    assert(false);
                }
            }
            assert(gravity_step(s0, self.state(), ds, updated));
            assert forall|k: int|
                0 <= k < ds.len() implies ({
                let src = move_src(#[trigger] ds[k]);
                let drow = src / w;
                let col = src % w;
                &&& self.active_top() <= drow
                &&& (drow + 1 <= h - 2 ==> drow + 1 <= self.active_bottom())
                &&& (match move_dir(ds[k]) {
                    Direction::Down => self.active_left() <= col <= self.active_right(),
                    Direction::DownLeft => self.active_left() <= col - 1,
                    Direction::DownRight => col + 1 <= self.active_right(),
                })
            }) by {
                assert(move_local(ds[k], w, h));
                let src = move_src(ds[k]);
                assert((h - 1) * w == w * (h - 1)) by (nonlinear_arith);
                lemma_div_bounds(src, w, h - 1);
            }
            assert(bounds_track(*self, ds));
        }
        updated
    }

    /// Empties every cell, marks the whole grid active again, and
    /// truncates the log to a single `Clear` record.
    pub fn clear(&mut self)
        requires
            old(self).wf(),
        ensures
            final(self).wf(),
            final(self).spec_width() == old(self).spec_width(),
            final(self).spec_height() == old(self).spec_height(),
            final(self).spec_radius() == old(self).spec_radius(),
            final(self).cells().len() == old(self).cells().len(),
            forall|i: int| 0 <= i < final(self).cells().len() ==> final(self).cells()[i] == EMPTY,
            final(self).fully_active(),
            final(self).log() == seq![Change::Clear],
            final(self).state() == replay(old(self).state(), seq![Change::Clear]),
            all_replayable(old(self).state(), seq![Change::Clear]),
    {
        let n = self.colors.len();
        let mut i: usize = 0;
        while i < n
            invariant
                i <= n,
                old(self).wf(),
                self.colors@.len() == n,
                n == old(self).colors@.len(),
                self.width == old(self).width,
                self.height == old(self).height,
                self.radius == old(self).radius,
                self.log == old(self).log,
                forall|j: int| 0 <= j < i ==> self.colors@[j] == EMPTY,
            decreases n - i,
        {
            self.colors.set(i, EMPTY);
            i = i + 1;
        }
        self.highest_row = 0;
        self.lowest_row = if self.height >= 2 {
            self.height - 2
        } else {
            0
        };
        self.left_skip = 0;
        self.right_skip = self.width - 1;
        self.log.clear();
        proof {
            lemma_decode_single(Change::Clear);
            lemma_replay_single(old(self).state(), Change::Clear);
            assert(self.state().cells =~= apply_change(old(self).state(), Change::Clear).cells);
            assert(self.state() =~~= apply_change(old(self).state(), Change::Clear));
        }
    }

    /// Hands the accumulated log over and starts a fresh one, leaving the
    /// cells untouched: the start of a new tick.
    pub fn take_changes(&mut self) -> (r: Changelist)
        requires
            old(self).wf(),
        ensures
            final(self).wf(),
            r.changes@ == old(self).log_words(),
            final(self).log() == Seq::<Change>::empty(),
            final(self).state() == old(self).state(),
            final(self).spec_radius() == old(self).spec_radius(),
            final(self).active_top() == old(self).active_top(),
            final(self).active_bottom() == old(self).active_bottom(),
            final(self).active_left() == old(self).active_left(),
            final(self).active_right() == old(self).active_right(),
    {
        let mut taken = Changelist::new();
        core::mem::swap(&mut taken, &mut self.log);
        taken
    }

    /// Spawns a brush disc of `color` around `mouse_pos`: every in-bounds
    /// empty cell the disc covers is set and logged as a `Spawn` record;
    /// occupied cells are never overwritten.  Returns whether any cell was
    /// placed, and expands the tracked active region over touched cells.
    pub fn spawn(&mut self, mouse_pos: (u16, u16), color: u32) -> (placed: bool)
        requires
            old(self).wf(),
            color != EMPTY,
        ensures
            final(self).wf(),
            final(self).spec_width() == old(self).spec_width(),
            final(self).spec_height() == old(self).spec_height(),
            final(self).spec_radius() == old(self).spec_radius(),
            final(self).cells().len() == old(self).cells().len(),
            final(self).cells() == spawn_result(
                old(self).state(),
                mouse_pos.0 as int,
                mouse_pos.1 as int,
                old(self).spec_radius(),
                color,
            ),
            placed == spawn_places(
                old(self).state(),
                mouse_pos.0 as int,
                mouse_pos.1 as int,
                old(self).spec_radius(),
            ),
            final(self).log().len() >= old(self).log().len(),
            final(self).log().take(old(self).log().len() as int) == old(self).log(),
            replay(
                old(self).state(),
                final(self).log().skip(old(self).log().len() as int),
            ) == final(self).state(),
            all_replayable(old(self).state(), final(self).log().skip(old(self).log().len() as int)),
            forall|k: int|
                old(self).log().len() <= k < final(self).log().len() ==> (#[trigger] final(
                    self
                ).log()[k]) is Spawn,
            final(self).active_top() <= old(self).active_top(),
            old(self).active_bottom() <= final(self).active_bottom(),
            final(self).active_left() <= old(self).active_left(),
            old(self).active_right() <= final(self).active_right(),
            forall|i: int|
                0 <= i < old(self).cells().len() && #[trigger] disc_covers(
                    mouse_pos.0 as int,
                    mouse_pos.1 as int,
                    old(self).spec_radius(),
                    old(self).spec_width(),
                    i,
                ) ==> final(self).active_covers(
                    i % old(self).spec_width(),
                    i / old(self).spec_width(),
                ),
    {
        let ghost s0 = self.state();
        let ghost cx = mouse_pos.0 as int;
        let ghost cy = mouse_pos.1 as int;
        let ghost r = self.spec_radius();
        let ghost w = s0.width;
        let ghost h = s0.height;
        let ghost old_words = self.log.changes@;
        let ghost old_log = decode_words(old_words).unwrap();
        let offs = circle_offsets(self.radius);
        let mut placed = false;
        let ghost mut ds: Seq<Change> = Seq::empty();
        proof {
            assert(old_log + ds =~= old_log);
        }
        let mut oi: usize = 0;
        while oi < offs.len()
            invariant
                old(self).wf(),
                color != EMPTY,
                s0 == old(self).state(),
                cx == mouse_pos.0 as int,
                cy == mouse_pos.1 as int,
                r == old(self).spec_radius(),
                w == s0.width,
                h == s0.height,
                1 <= w,
                1 <= h,
                w * h <= MAX_CELLS,
                s0.cells.len() == w * h,
                old_words == old(self).log_words(),
                decode_words(old_words).is_some(),
                old_log == decode_words(old_words).unwrap(),
                oi <= offs@.len(),
                forall|k: int|
                    0 <= k < offs@.len() ==> in_disc(
                        (#[trigger] offs@[k]).0 as int,
                        offs@[k].1 as int,
                        r,
                    ),
                forall|dx: int, dy: int|
                    #[trigger] in_disc(dx, dy, r) ==> offs@.contains((dx as i32, dy as i32)),
                forall|k1: int, k2: int| 0 <= k1 < k2 < offs@.len() ==> offs@[k1] != offs@[k2],
                self.wf(),
                self.state().width == w,
                self.state().height == h,
                self.spec_radius() == r,
                self.cells().len() == s0.cells.len(),
                forall|i: int|
                    0 <= i < s0.cells.len() ==> self.cells()[i] == (if covered_by(
                        offs@,
                        oi as int,
                        cx,
                        cy,
                        w,
                        h,
                        i,
                    ) && s0.cells[i] == EMPTY {
                        color
                    } else {
                        s0.cells[i]
                    }),
                placed == exists|i: int|
                    0 <= i < s0.cells.len() && #[trigger] covered_by(
                        offs@,
                        oi as int,
                        cx,
                        cy,
                        w,
                        h,
                        i,
                    ) && s0.cells[i] == EMPTY,
                decode_words(self.log_words()) == Some(old_log + ds),
                replay(s0, ds) == self.state(),
                all_replayable(s0, ds),
                forall|k: int| 0 <= k < ds.len() ==> (#[trigger] ds[k]) is Spawn,
                self.active_top() <= old(self).active_top(),
                old(self).active_bottom() <= self.active_bottom(),
                self.active_left() <= old(self).active_left(),
                old(self).active_right() <= self.active_right(),
                forall|i: int|
                    0 <= i < s0.cells.len() && #[trigger] covered_by(
                        offs@,
                        oi as int,
                        cx,
                        cy,
                        w,
                        h,
                        i,
                    ) ==> self.active_covers(i % w, i / w),
            decreases offs@.len() - oi,
        {
            let ghost oi0 = oi as int;
            let ghost pre_bounds = *self;
            let (dx, dy) = offs[oi];
            proof {
                assert(in_disc(offs@[oi0].0 as int, offs@[oi0].1 as int, r));
            }
            let x = mouse_pos.0 as i32 + dx;
            let y = mouse_pos.1 as i32 + dy;
            if x >= 0 && x < self.width as i32 && y >= 0 && y < self.height as i32 {
                let xu = x as u16;
                let yu = y as u16;
                if yu < self.highest_row {
                    self.highest_row = yu;
                }
                let cap = if self.height >= 2 {
                    self.height - 2
                } else {
                    0
                };
                let lr = if yu > self.lowest_row {
                    yu
                } else {
                    self.lowest_row
                };
                self.lowest_row = if lr > cap {
                    cap
                } else {
                    lr
                };
                if xu < self.left_skip {
                    self.left_skip = xu;
                }
                let rm = if xu > self.right_skip {
                    xu
                } else {
                    self.right_skip
                };
                self.right_skip = if rm > self.width - 1 {
                    self.width - 1
                } else {
                    rm
                };
                proof {
                    lemma_idx_bound(y as int, x as int, w, h);
                    assert(h * w == w * h) by (nonlinear_arith);
                }
                let index = (y as u32) * (self.width as u32) + (x as u32);
                let ghost ii = index as int;
                if self.is_empty(index) {
                    proof {
                        if covered_by(offs@, oi0, cx, cy, w, h, ii) && s0.cells[ii] == EMPTY {
                            assert(self.cells()[ii] == color);
                            assert(false);
                        }
                        assert(s0.cells[ii] == EMPTY);
                    }
                    let ghost pre = self.state();
                    let ghost wb = self.log.changes@;
                    let ghost c = Change::Spawn { color, pos: index as usize };
                    self.set_pixel(index, color);
                    self.log.spawn(index as usize, color);
                    placed = true;
                    proof {
                        lemma_decode_push(wb, c);
                        assert(old_log + ds.push(c) =~= (old_log + ds).push(c));
                        lemma_replay_push(s0, ds, c);
                        assert(change_replayable(pre, c));
                        ds = ds.push(c);
                        assert(self.state() =~~= apply_change(pre, c));
                        assert(replay(s0, ds) == self.state());
                    }
                } else {
                    proof {
                        if !(covered_by(offs@, oi0, cx, cy, w, h, ii) && s0.cells[ii] == EMPTY) {
                            assert(self.cells()[ii] == s0.cells[ii]);
                        }
                    }
                }
            }
            oi = oi + 1;
            proof {
                assert forall|i: int|
                    0 <= i < s0.cells.len() && covered_by(
                        offs@,
                        oi as int,
                        cx,
                        cy,
                        w,
                        h,
                        i,
                    ) && !covered_by(offs@, oi0, cx, cy, w, h, i) implies off_hits(
                    offs@[oi0],
                    cx,
                    cy,
                    w,
                    h,
                    i,
                ) by {
                    let k = choose|k: int|
                        0 <= k < oi as int && off_hits(#[trigger] offs@[k], cx, cy, w, h, i);
                    assert(k == oi0);
                }
                assert forall|i: int|
                    0 <= i < s0.cells.len() && covered_by(
                        offs@,
                        oi0,
                        cx,
                        cy,
                        w,
                        h,
                        i,
                    ) implies covered_by(offs@, oi as int, cx, cy, w, h, i) by {
                    let k = choose|k: int|
                        0 <= k < oi0 && off_hits(#[trigger] offs@[k], cx, cy, w, h, i);
                    assert(0 <= k < oi as int && off_hits(offs@[k], cx, cy, w, h, i));
                }
                if 0 <= cx + offs@[oi0].0 < w && 0 <= cy + offs@[oi0].1 < h {
                    let ti = (cy + offs@[oi0].1) * w + (cx + offs@[oi0].0);
                    lemma_idx_bound(cy + offs@[oi0].1, cx + offs@[oi0].0, w, h);
                    assert(h * w == w * h) by (nonlinear_arith);
                    assert(off_hits(offs@[oi0], cx, cy, w, h, ti));
                    assert(covered_by(offs@, oi as int, cx, cy, w, h, ti));
                    lemma_rowcol(ti, w, cy + offs@[oi0].1, cx + offs@[oi0].0);
                    assert(self.active_covers(ti % w, ti / w));
                } else {
                    assert forall|i: int|
                        0 <= i < s0.cells.len() implies !off_hits(offs@[oi0], cx, cy, w, h, i) by {
                    }
                }
                assert(self.active_top() <= pre_bounds.active_top() && pre_bounds.active_bottom()
                    <= self.active_bottom() && self.active_left() <= pre_bounds.active_left()
                    && pre_bounds.active_right() <= self.active_right());
                assert forall|i: int|
                    0 <= i < s0.cells.len() && #[trigger] covered_by(
                        offs@,
                        oi as int,
                        cx,
                        cy,
                        w,
                        h,
                        i,
                    ) implies self.active_covers(i % w, i / w) by {
                    if covered_by(offs@, oi0, cx, cy, w, h, i) {
                        assert(pre_bounds.active_covers(i % w, i / w));
                    } else {
                        assert(off_hits(offs@[oi0], cx, cy, w, h, i));
                    }
                }
            }
        }
        proof {
            assert forall|i: int|
                0 <= i < s0.cells.len() && #[trigger] disc_covers(cx, cy, r, w, i) implies
                covered_by(offs@, offs@.len() as int, cx, cy, w, h, i) by {
                lemma_div_bounds(i, w, h);
                let dx = i % w - cx;
                let dy = i / w - cy;
                assert(in_disc(dx, dy, r));
                assert(offs@.contains((dx as i32, dy as i32)));
                let k = choose|k: int| 0 <= k < offs@.len() && offs@[k] == (dx as i32, dy as i32);
                assert(offs@[k].0 as int == dx && offs@[k].1 as int == dy);
                assert(off_hits(offs@[k], cx, cy, w, h, i));
            }
            assert forall|i: int|
                0 <= i < s0.cells.len() && #[trigger] covered_by(
                    offs@,
                    offs@.len() as int,
                    cx,
                    cy,
                    w,
                    h,
                    i,
                ) implies disc_covers(cx, cy, r, w, i) by {
                let k = choose|k: int|
                    0 <= k < offs@.len() && off_hits(#[trigger] offs@[k], cx, cy, w, h, i);
                let ox = offs@[k].0 as int;
                let oy = offs@[k].1 as int;
                lemma_rowcol(i, w, cy + oy, cx + ox);
                assert(in_disc(ox, oy, r));
            }
            let fl = decode_words(self.log_words()).unwrap();
            assert(fl == old_log + ds);
            assert(fl.take(old_log.len() as int) =~= old_log);
            assert(fl.skip(old_log.len() as int) =~= ds);
            assert(self.cells() =~= spawn_result(s0, cx, cy, r, color));
            if placed {
                let i = choose|i: int|
                    0 <= i < s0.cells.len() && #[trigger] covered_by(
                        offs@,
                        offs@.len() as int,
                        cx,
                        cy,
                        w,
                        h,
                        i,
                    ) && s0.cells[i] == EMPTY;
                assert(disc_covers(cx, cy, r, w, i) && s0.cells[i] == EMPTY);
                assert(spawn_places(s0, cx, cy, r));
            }
            if spawn_places(s0, cx, cy, r) {
                let i = choose|i: int|
                    0 <= i < s0.cells.len() && #[trigger] disc_covers(cx, cy, r, s0.width, i)
                        && s0.cells[i] == EMPTY;
                assert(covered_by(offs@, offs@.len() as int, cx, cy, w, h, i));
                assert(placed);
            }
        }
        placed
    }

    /// Changes the grid dimensions, preserving the overlapping content
    /// (left- and bottom-anchored), marks everything active, and appends
    /// a `Resize` record to the log.
    pub fn resize(&mut self, width: u16, height: u16)
        requires
            old(self).wf(),
            1 <= width,
            1 <= height,
            width as int * height as int <= MAX_CELLS,
        ensures
            final(self).wf(),
            final(self).spec_width() == width as int,
            final(self).spec_height() == height as int,
            final(self).spec_radius() == old(self).spec_radius(),
            final(self).cells() == resize_spec(
                old(self).cells(),
                old(self).spec_width(),
                old(self).spec_height(),
                width as int,
                height as int,
            ),
            final(self).log() == old(self).log().push(
                Change::Resize(width as usize, height as usize),
            ),
            replay(
                old(self).state(),
                seq![Change::Resize(width as usize, height as usize)],
            ) == final(self).state(),
            all_replayable(
                old(self).state(),
                seq![Change::Resize(width as usize, height as usize)],
            ),
            final(self).fully_active(),
    {
        let old_w = self.width;
        let old_h = self.height;
        proof {
            assert(old_h as int * width as int <= 0xFFFF_FFFF && width as int * height as int
                <= 0xFFFF_FFFF) by (nonlinear_arith)
                requires
                    old_h <= 0xFFFF,
                    width <= 0xFFFF,
                    width as int * height as int <= MAX_CELLS,
            ;
        }
        smart_resize(
            &mut self.colors,
            (old_w as usize, old_h as usize),
            (width as usize, height as usize),
        );
        self.width = width;
        self.height = height;
        self.highest_row = 0;
        self.lowest_row = if height >= 2 {
            height - 2
        } else {
            0
        };
        self.left_skip = 0;
        self.right_skip = width - 1;
        let ghost wb = self.log.changes@;
        self.log.resize(width as usize, height as usize);
        proof {
            let c = Change::Resize(width as usize, height as usize);
            lemma_decode_push(wb, c);
            lemma_replay_single(old(self).state(), c);
            assert(self.state() =~~= apply_change(old(self).state(), c));
        }
    }

    /// Replays an externally produced change log onto this grid's raw
    /// state, emitting nothing: the synchronization layer uses this to
    /// mirror the simulation grid into the published grid.  Returns
    /// whether the whole log was replayed; on a malformed word or a
    /// record that does not fit the state reached, the replay stops there
    /// and `false` comes back.
    pub fn apply(&mut self, changes: &Changelist) -> (ok: bool)
        requires
            old(self).wf(),
        ensures
            final(self).wf(),
            final(self).spec_radius() == old(self).spec_radius(),
            final(self).log_words() == old(self).log_words(),
            (decode_words(changes.changes@).is_some() && all_replayable(
                old(self).state(),
                decode_words(changes.changes@).unwrap(),
            )) ==> (ok && final(self).state() == replay(
                old(self).state(),
                decode_words(changes.changes@).unwrap(),
            )),
            decode_words(changes.changes@).is_none() ==> !ok,
            (decode_words(changes.changes@).is_some() && !all_replayable(
                old(self).state(),
                decode_words(changes.changes@).unwrap(),
            )) ==> !ok,
            !ok ==> exists|p: Seq<Change>|
                #[trigger] all_replayable(old(self).state(), p) && final(self).state() == replay(
                    old(self).state(),
                    p,
                ) && (decode_words(changes.changes@).is_some() ==> p.len() <= decode_words(
                    changes.changes@,
                ).unwrap().len() && p == decode_words(changes.changes@).unwrap().take(
                    p.len() as int,
                )),
    {
        let ghost s0 = self.state();
        let ghost full = changes.changes@;
        let n = changes.changes.len();
        let mut i: usize = 0;
        let ghost mut done: Seq<Change> = Seq::empty();
        proof {
            assert(full.skip(0) =~= full);
            if decode_words(full).is_some() {
                assert(done + decode_words(full).unwrap() =~= decode_words(full).unwrap());
            }
        }
        while i < n
            invariant
                old(self).wf(),
                s0 == old(self).state(),
                full == changes.changes@,
                n == full.len(),
                i <= n,
                self.wf(),
                self.spec_radius() == old(self).spec_radius(),
                self.log_words() == old(self).log_words(),
                replay(s0, done) == self.state(),
                all_replayable(s0, done),
                decode_words(full).is_some() ==> (decode_words(full.skip(i as int)).is_some()
                    && decode_words(full).unwrap() == done + decode_words(
                    full.skip(i as int),
                ).unwrap()),
                (decode_words(full).is_some() && all_replayable(
                    s0,
                    decode_words(full).unwrap(),
                )) ==> all_replayable(self.state(), decode_words(full.skip(i as int)).unwrap()),
                decode_words(full).is_none() ==> decode_words(full.skip(i as int)).is_none(),
            decreases n - i,
        {
            let ghost i0 = i as int;
            let ghost tail = full.skip(i0);
            let ghost cur = self.state();
            let w0 = changes.changes[i];
            proof {
                assert(tail[0] == w0);
            }
            let tag = w0 >> 28;
            let wu = self.width as usize;
            let hu = self.height as usize;
            let len = self.colors.len();
            proof {
                assert(wu * hu == len && wu * (hu - 1) <= len && (hu - 1) * wu == wu * (hu
                    - 1)) by (nonlinear_arith)
                    requires
                        len == wu * hu,
                        1 <= wu,
                        1 <= hu,
                ;
            }
            if tag == CLEAR_TAG {
                let ghost c = Change::Clear;
                let mut j: usize = 0;
                while j < len
                    invariant
                        j <= len,
                        len == self.colors@.len(),
                        self.width == cur.width,
                        self.height == cur.height,
                        self.radius == old(self).spec_radius(),
                        self.log.changes@ == old(self).log_words(),
                        self.highest_row as int <= self.spec_height(),
                        (self.spec_height() >= 2 ==> self.active_bottom() <= self.spec_height()
                            - 2),
                        (self.spec_height() < 2 ==> self.active_bottom() == 0),
                        self.active_left() < self.spec_width(),
                        self.active_right() < self.spec_width(),
                        forall|q: int| 0 <= q < j ==> self.colors@[q] == EMPTY,
                    decreases len - j,
                {
                    self.colors.set(j, EMPTY);
                    j = j + 1;
                }
                i = i + 1;
                proof {
                    assert(tail.skip(1) =~= full.skip(i as int));
                    if decode_words(tail).is_some() {
                        let rest = decode_words(tail.skip(1)).unwrap();
                        assert(decode_words(tail).unwrap() == seq![c] + rest);
                        assert((seq![c] + rest)[0] == c);
                        assert((seq![c] + rest).skip(1) =~= rest);
                    } else {
                        assert(decode_words(tail.skip(1)).is_none());
                    }
                    assert(self.state().cells =~= apply_change(cur, c).cells);
                    assert(self.state() =~~= apply_change(cur, c));
                    self.apply_step(old(self), cur, full, i0, done, c, 1);
                    done = done.push(c);
                }
            } else if tag == RESIZE_TAG {
                if i + 1 >= n {
                    proof {
                        assert(decode_words(tail).is_none());
                    }
                    proof {
                        if decode_words(full).is_some() {
                            assert(decode_words(full).unwrap().take(done.len() as int) =~= done);
                        }
                        self.apply_stop(old(self), full, done);
                    }
                    return false;
                }
                let hnew = (w0 & 0x0FFF_FFFF) as usize;
                let wnew = changes.changes[i + 1] as usize;
                proof {
                    assert(tail[1] == full[i0 + 1]);
                }
                let ghost c = Change::Resize(wnew, hnew);
                if wnew < 1 || wnew > 0xFFFF || hnew < 1 || hnew > 0xFFFF {
                    proof {
                        assert(!change_replayable(cur, c));
                    }
                    proof {
                        if decode_words(full).is_some() {
                            assert(decode_words(full).unwrap().take(done.len() as int) =~= done);
                        }
                        self.apply_stop(old(self), full, done);
                    }
                    return false;
                }
                proof {
                    assert(wnew * hnew <= 0xFFFF_FFFF) by (nonlinear_arith)
                        requires
                            wnew <= 0xFFFF,
                            hnew <= 0xFFFF,
                    ;
                    assert(hu * wnew <= 0xFFFF_FFFF) by (nonlinear_arith)
                        requires
                            hu <= 0xFFFF,
                            wnew <= 0xFFFF,
                    ;
                }
                if wnew * hnew > MAX_CELLS as usize {
                    proof {
                        assert(!change_replayable(cur, c));
                    }
                    proof {
                        if decode_words(full).is_some() {
                            assert(decode_words(full).unwrap().take(done.len() as int) =~= done);
                        }
                        self.apply_stop(old(self), full, done);
                    }
                    return false;
                }
                let ww = self.width;
                let hh = self.height;
                smart_resize(&mut self.colors, (ww as usize, hh as usize), (wnew, hnew));
                self.width = wnew as u16;
                self.height = hnew as u16;
                self.highest_row = 0;
                self.lowest_row = if self.height >= 2 {
                    self.height - 2
                } else {
                    0
                };
                self.left_skip = 0;
                self.right_skip = self.width - 1;
                i = i + 2;
                proof {
                    assert(tail.skip(2) =~= full.skip(i as int));
                    if decode_words(tail).is_some() {
                        let rest = decode_words(tail.skip(2)).unwrap();
                        assert(decode_words(tail).unwrap() == seq![c] + rest);
                        assert((seq![c] + rest)[0] == c);
                        assert((seq![c] + rest).skip(1) =~= rest);
                    } else {
                        assert(decode_words(tail.skip(2)).is_none());
                    }
                    assert(self.state() =~~= apply_change(cur, c));
                    self.apply_step(old(self), cur, full, i0, done, c, 2);
                    done = done.push(c);
                }
            } else if tag == MOVE_TAG {
                let db = w0 & 3;
                proof {
                    assert(w0 & 3 < 4) by (bit_vector);
                }
                if db == 3 {
                    proof {
                        assert(decode_words(tail).is_none());
                    }
                    proof {
                        if decode_words(full).is_some() {
                            assert(decode_words(full).unwrap().take(done.len() as int) =~= done);
                        }
                        self.apply_stop(old(self), full, done);
                    }
                    return false;
                }
                let direction = if db == 0 {
                    Direction::Down
                } else if db == 1 {
                    Direction::DownLeft
                } else {
                    Direction::DownRight
                };
                let pos = ((w0 >> 2) & 0x03FF_FFFF) as usize;
                let ghost c = Change::Move(pos, direction);
                if hu < 2 || pos >= wu * (hu - 1) {
                    proof {
                        if hu < 2 {
                            assert((wu as int) * ((hu as int) - 1) <= 0) by (nonlinear_arith)
                                requires
                                    1 <= hu < 2,
                                    1 <= wu,
                            ;
                        }
                        assert(!change_replayable(cur, c));
                    }
                    proof {
                        if decode_words(full).is_some() {
                            assert(decode_words(full).unwrap().take(done.len() as int) =~= done);
                        }
                        self.apply_stop(old(self), full, done);
                    }
                    return false;
                }
                let col = pos % wu;
                if db == 1 && col == 0 {
                    proof {
                        assert(!change_replayable(cur, c));
                    }
                    proof {
                        if decode_words(full).is_some() {
                            assert(decode_words(full).unwrap().take(done.len() as int) =~= done);
                        }
                        self.apply_stop(old(self), full, done);
                    }
                    return false;
                }
                if db == 2 && col >= wu - 1 {
                    proof {
                        assert(!change_replayable(cur, c));
                    }
                    proof {
                        if decode_words(full).is_some() {
                            assert(decode_words(full).unwrap().take(done.len() as int) =~= done);
                        }
                        self.apply_stop(old(self), full, done);
                    }
                    return false;
                }
                proof {
                    let y = pos as int / (wu as int);
                    lemma_div_bounds(pos as int, wu as int, hu as int - 1);
                    lemma_idx_bound(y + 1, col as int, wu as int, hu as int);
                    if (col as int) < wu - 1 {
                        lemma_idx_bound(y + 1, col as int + 1, wu as int, hu as int);
                    }
                    if col > 0 {
                        lemma_idx_bound(y + 1, col as int - 1, wu as int, hu as int);
                    }
                    assert((y + 1) * wu + col == pos + wu) by (nonlinear_arith)
                        requires
                            pos as int == y * wu + col,
                    ;
                    assert(hu * wu == wu * hu) by (nonlinear_arith);
                }
                let target = if db == 0 {
                    pos + wu
                } else if db == 1 {
                    pos + wu - 1
                } else {
                    pos + wu + 1
                };
                let v = self.colors[pos];
                self.colors.set(target, v);
                self.colors.set(pos, EMPTY);
                i = i + 1;
                proof {
                    assert(tail.skip(1) =~= full.skip(i as int));
                    if decode_words(tail).is_some() {
                        let rest = decode_words(tail.skip(1)).unwrap();
                        assert(decode_words(tail).unwrap() == seq![c] + rest);
                        assert((seq![c] + rest)[0] == c);
                        assert((seq![c] + rest).skip(1) =~= rest);
                    } else {
                        assert(decode_words(tail.skip(1)).is_none());
                    }
                    assert(self.state() =~~= apply_change(cur, c));
                    self.apply_step(old(self), cur, full, i0, done, c, 1);
                    done = done.push(c);
                }
            } else if tag == SPAWN_TAG {
                if i + 1 >= n {
                    proof {
                        assert(decode_words(tail).is_none());
                    }
                    proof {
                        if decode_words(full).is_some() {
                            assert(decode_words(full).unwrap().take(done.len() as int) =~= done);
                        }
                        self.apply_stop(old(self), full, done);
                    }
                    return false;
                }
                let color = changes.changes[i + 1];
                let pos = (w0 & 0x0FFF_FFFF) as usize;
                proof {
                    assert(tail[1] == full[i0 + 1]);
                }
                let ghost c = Change::Spawn { color, pos };
                if pos >= len {
                    proof {
                        assert(!change_replayable(cur, c));
                    }
                    proof {
                        if decode_words(full).is_some() {
                            assert(decode_words(full).unwrap().take(done.len() as int) =~= done);
                        }
                        self.apply_stop(old(self), full, done);
                    }
                    return false;
                }
                self.colors.set(pos, color);
                i = i + 2;
                proof {
                    assert(tail.skip(2) =~= full.skip(i as int));
                    if decode_words(tail).is_some() {
                        let rest = decode_words(tail.skip(2)).unwrap();
                        assert(decode_words(tail).unwrap() == seq![c] + rest);
                        assert((seq![c] + rest)[0] == c);
                        assert((seq![c] + rest).skip(1) =~= rest);
                    } else {
                        assert(decode_words(tail.skip(2)).is_none());
                    }
                    assert(self.state() =~~= apply_change(cur, c));
                    self.apply_step(old(self), cur, full, i0, done, c, 2);
                    done = done.push(c);
                }
            } else {
                proof {
                    assert(decode_words(tail).is_none());
                }
                proof {
                    if decode_words(full).is_some() {
                        assert(decode_words(full).unwrap().take(done.len() as int) =~= done);
                    }
                    self.apply_stop(old(self), full, done);
                }
                return false;
            }
        }
        proof {
            assert(full.skip(n as int) =~= Seq::<u32>::empty());
            if decode_words(full).is_some() {
                assert(done + Seq::<Change>::empty() =~= done);
                assert(decode_words(full).unwrap() == done);
                assert(all_replayable(s0, decode_words(full).unwrap()));
            }
        }
        true
    }

    /// The ghost bookkeeping of one replay step: knowing the step's
    /// record was replayable on the state before it and that the new
    /// state is that record applied, the loop's decode and replay
    /// relations carry to the next position.
    proof fn apply_step(
        self,
        orig: &Grid,
        cur: GridState,
        full: Seq<u32>,
        i0: int,
        done: Seq<Change>,
        c: Change,
        k: int,
    )
        requires
            replay(orig.state(), done) == cur,
            all_replayable(orig.state(), done),
            change_replayable(cur, c),
            self.state() == apply_change(cur, c),
            0 <= i0,
            i0 + k <= full.len(),
            decode_words(full).is_some() ==> (decode_words(full.skip(i0)).is_some()
                && decode_words(full).unwrap() == done + decode_words(full.skip(i0)).unwrap()),
            (decode_words(full).is_some() && all_replayable(
                orig.state(),
                decode_words(full).unwrap(),
            )) ==> all_replayable(cur, decode_words(full.skip(i0)).unwrap()),
            decode_words(full).is_none() ==> decode_words(full.skip(i0)).is_none(),
            // the step decoded: the head of the remaining words is `c`,
            // consuming `k` words
            decode_words(full.skip(i0)).is_some() ==> (decode_words(full.skip(i0)).unwrap().len()
                > 0 && decode_words(full.skip(i0)).unwrap()[0] == c && decode_words(
                full.skip(i0),
            ).unwrap().skip(1) == decode_words(full.skip(i0 + k)).unwrap() && decode_words(
                full.skip(i0 + k),
            ).is_some()),
            decode_words(full.skip(i0)).is_none() ==> decode_words(full.skip(i0 + k)).is_none(),
        ensures
            replay(orig.state(), done.push(c)) == self.state(),
            all_replayable(orig.state(), done.push(c)),
            decode_words(full).is_some() ==> (decode_words(full.skip(i0 + k)).is_some()
                && decode_words(full).unwrap() == done.push(c) + decode_words(
                full.skip(i0 + k),
            ).unwrap()),
            (decode_words(full).is_some() && all_replayable(
                orig.state(),
                decode_words(full).unwrap(),
            )) ==> all_replayable(self.state(), decode_words(full.skip(i0 + k)).unwrap()),
            decode_words(full).is_none() ==> decode_words(full.skip(i0 + k)).is_none(),
    {
        lemma_replay_push(orig.state(), done, c);
        if decode_words(full).is_some() {
            let rest = decode_words(full.skip(i0)).unwrap();
            let rest2 = decode_words(full.skip(i0 + k)).unwrap();
            assert(done + rest == decode_words(full).unwrap());
            assert(done.push(c) + rest2 =~= done + rest);
            if all_replayable(orig.state(), decode_words(full).unwrap()) {
                assert(all_replayable(cur, rest));
                assert(rest.skip(1) == rest2);
                assert(all_replayable(apply_change(cur, c), rest.skip(1)));
            }
        }
    }

    /// The facts a replay that stops early hands back: what was already
    /// applied is a replayable prefix of the decoded log.
    proof fn apply_stop(self, orig: &Grid, full: Seq<u32>, done: Seq<Change>)
        requires
            replay(orig.state(), done) == self.state(),
            all_replayable(orig.state(), done),
            decode_words(full).is_some() ==> done.len() <= decode_words(full).unwrap().len()
                && decode_words(full).unwrap().take(done.len() as int) == done,
        ensures
            exists|p: Seq<Change>|
                #[trigger] all_replayable(orig.state(), p) && self.state() == replay(
                    orig.state(),
                    p,
                ) && (decode_words(full).is_some() ==> p.len() <= decode_words(
                    full,
                ).unwrap().len() && p == decode_words(full).unwrap().take(p.len() as int)),
    {
        assert(all_replayable(orig.state(), done) && self.state() == replay(orig.state(), done)
            && (decode_words(full).is_some() ==> done.len() <= decode_words(
            full,
        ).unwrap().len() && done == decode_words(full).unwrap().take(done.len() as int)));
    }

    /// Sets the brush radius, in cells.
    pub fn set_radius(&mut self, r: u16)
        requires
            old(self).wf(),
            r >= 1,
        ensures
            final(self).wf(),
            final(self).spec_radius() == r as int,
            final(self).state() == old(self).state(),
            final(self).log_words() == old(self).log_words(),
            final(self).active_top() == old(self).active_top(),
            final(self).active_bottom() == old(self).active_bottom(),
            final(self).active_left() == old(self).active_left(),
            final(self).active_right() == old(self).active_right(),
    {
        self.radius = r;
    }
}

} // verus!
