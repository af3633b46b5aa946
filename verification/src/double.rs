//! The synchronization layer's decision core.  One call of [`run_tick`]
//! is the decision part of one simulation tick: it applies the drained
//! input events to the private grid, runs at most one gravity step, and
//! says whether the result must be published.  The loop around it —
//! timing, the event queue, the lock on the published grid and the
//! "changed" signal — stays outside the library, as does the render
//! step's frame handling; the overlay functions here do the render
//! step's computation on a plain pixel buffer.

use vstd::prelude::*;

use crate::changelist::Change;
use crate::grid::{circle_offsets, covered_by, disc_covers, gravity_step, in_disc, occ_count,
    off_hits, spawn_places, spawn_result, Grid, GridState, EMPTY, MAX_CELLS};
use crate::radii::{radius_of, RadiusId};
use crate::resize::{lemma_div_bounds, lemma_idx_bound, lemma_rowcol, resize_spec};

verus! {

/// An input event handed to the simulation thread.
#[derive(Clone, Copy)]
pub enum Event {
    Clear,
    Exit,
    Resize(u16, u16),
    Spawn(u32, (u16, u16)),
    Radius(RadiusId),
}

/// An event a tick may apply: dimensions positive and within the
/// change-log encoding capacity, spawn colors distinct from the empty
/// sentinel, radius ids on the ladder.
pub open spec fn event_ok(e: Event) -> bool {
    match e {
        Event::Clear => true,
        Event::Exit => true,
        Event::Resize(w, h) => 1 <= w && 1 <= h && (w as int) * (h as int) <= MAX_CELLS,
        Event::Spawn(color, _) => color != EMPTY,
        Event::Radius(r) => r.valid(),
    }
}

/// What one applied event does to the grid's observable state and brush
/// radius.  `Exit` is never applied: the tick stops at it.
pub open spec fn apply_event(s: GridState, radius: int, e: Event) -> (GridState, int) {
    match e {
        Event::Clear => (
            GridState {
                width: s.width,
                height: s.height,
                cells: Seq::new(s.cells.len(), |i: int| EMPTY),
            },
            radius,
        ),
        Event::Resize(w, h) => (
            GridState {
                width: w as int,
                height: h as int,
                cells: resize_spec(s.cells, s.width, s.height, w as int, h as int),
            },
            radius,
        ),
        Event::Spawn(color, pos) => (
            GridState {
                width: s.width,
                height: s.height,
                cells: spawn_result(s, pos.0 as int, pos.1 as int, radius, color),
            },
            radius,
        ),
        Event::Radius(r) => (s, radius_of(r.idx())),
        Event::Exit => (s, radius),
    }
}

/// A tick's event phase, folded over the grid state, the brush radius and
/// the pending-motion flag, stopping at the first `Exit`: the state the
/// drained events leave, the radius they select, and whether a resize or
/// a placing spawn (or the previous tick) demands a gravity step.
pub open spec fn run_events(s: GridState, radius: int, needs: bool, events: Seq<Event>) -> (
    GridState,
    int,
    bool,
)
    decreases events.len(),
{
    if events.len() == 0 {
        (s, radius, needs)
    } else if events[0] is Exit {
        (s, radius, needs)
    } else {
        let next = apply_event(s, radius, events[0]);
        let needs2 = needs || events[0] is Resize || (match events[0] {
            Event::Spawn(_, pos) => spawn_places(s, pos.0 as int, pos.1 as int, radius),
            _ => false,
        });
        run_events(next.0, next.1, needs2, events.skip(1))
    }
}

/// What one tick decided.
pub struct TickOutcome {
    /// The consumer must see the grid: something was cleared or moved.
    pub publish: bool,
    /// Motion may still be pending: the next tick must run the gravity
    /// step again.
    pub needs_update: bool,
    /// A stop event arrived: the tick loop must release its resources
    /// and terminate.
    pub exit: bool,
    /// Whether this tick ran the gravity step.
    pub ran_update: bool,
    /// The move records the gravity step emitted, if it ran.
    pub moves: Ghost<Seq<Change>>,
}

impl Grid {
    /// One simulation tick's decisions: applies the drained events to
    /// this grid in order, stopping at the first `Exit`; when a resize or
    /// spawn made motion possible (or the previous tick left motion
    /// pending), runs exactly one gravity step.  `publish` is set when a
    /// clear or a gravity step ran; on `exit` nothing is published.
    pub fn run_tick(&mut self, events: &Vec<Event>, needs_update_in: bool) -> (out: TickOutcome)
        requires
            old(self).wf(),
            forall|k: int| 0 <= k < events@.len() ==> event_ok(#[trigger] events@[k]),
        ensures
            final(self).wf(),
            out.exit == (exists|k: int|
                0 <= k < events@.len() && (#[trigger] events@[k]) is Exit),
            out.exit ==> !out.publish && !out.ran_update,
            !out.exit ==> out.publish == (out.ran_update || exists|k: int|
                0 <= k < events@.len() && (#[trigger] events@[k]) is Clear),
            !out.exit && needs_update_in ==> out.ran_update,
            !out.ran_update ==> !out.needs_update || out.exit,
            !out.exit && events@.len() == 0 && !needs_update_in ==> *final(self) == *old(self)
                && !out.publish && !out.needs_update,
            !out.exit && (forall|k: int| 0 <= k < events@.len() ==> (#[trigger] events@[k])
                is Radius) ==> occ_count(final(self).cells()) == occ_count(old(self).cells()),
            !out.exit && !needs_update_in && (forall|k: int|
                0 <= k < events@.len() ==> (#[trigger] events@[k]) is Radius) ==> final(
                self
            ).state() == old(self).state(),
            ({
                let m = run_events(
                    old(self).state(),
                    old(self).spec_radius(),
                    needs_update_in,
                    events@,
                );
                &&& final(self).spec_radius() == m.1
                &&& out.ran_update == (!out.exit && m.2)
                &&& (!out.ran_update ==> final(self).state() == m.0 && out.needs_update == m.2)
                &&& (out.ran_update ==> gravity_step(
                    m.0,
                    final(self).state(),
                    out.moves@,
                    out.needs_update,
                ))
            }),
    {
        let ghost m = run_events(
            old(self).state(),
            old(self).spec_radius(),
            needs_update_in,
            events@,
        );
        proof {
            assert(events@.skip(0) =~= events@);
        }
        let mut cleared = false;
        let mut needs_update = needs_update_in;
        let mut exited = false;
        let mut j: usize = 0;
        while j < events.len() && !exited
            invariant
                old(self).wf(),
                forall|k: int| 0 <= k < events@.len() ==> event_ok(#[trigger] events@[k]),
                j <= events@.len(),
                self.wf(),
                !exited ==> forall|k: int| 0 <= k < j ==> !((#[trigger] events@[k]) is Exit),
                exited ==> j < events@.len() && events@[j as int] is Exit && forall|k: int|
                    0 <= k < j ==> !((#[trigger] events@[k]) is Exit),
                cleared == (exists|k: int| 0 <= k < j && (#[trigger] events@[k]) is Clear),
                needs_update_in ==> needs_update,
                (forall|k: int| 0 <= k < j ==> (#[trigger] events@[k]) is Radius)
                    ==> self.state() == old(self).state() && needs_update == needs_update_in,
                events@.len() == 0 && !needs_update_in ==> *self == *old(self) && !cleared
                    && !needs_update,
                m == run_events(
                    old(self).state(),
                    old(self).spec_radius(),
                    needs_update_in,
                    events@,
                ),
                !exited ==> m == run_events(
                    self.state(),
                    self.spec_radius(),
                    needs_update,
                    events@.skip(j as int),
                ),
                exited ==> m.0 == self.state() && m.1 == self.spec_radius() && m.2
                    == needs_update,
            decreases events@.len() - j + (if exited {
                0int
            } else {
                1int
            }),
        {
            let ghost j0 = j as int;
            let ghost pre = self.state();
            let ghost prad = self.spec_radius();
            let ghost pneeds = needs_update;
            let ghost e = events@[j0];
            proof {
                assert(events@.skip(j0)[0] == e);
                assert(events@.skip(j0).skip(1) =~= events@.skip(j0 + 1));
            }
            match events[j] {
                Event::Clear => {
                    cleared = true;
                    self.clear();
                    j = j + 1;
                    proof {
                        assert(self.state().cells =~= apply_event(pre, prad, e).0.cells);
                        assert(self.state() =~~= apply_event(pre, prad, e).0);
                    }
                },
                Event::Resize(w, h) => {
                    needs_update = true;
                    self.resize(w, h);
                    j = j + 1;
                    proof {
                        assert(self.state() =~~= apply_event(pre, prad, e).0);
                    }
                },
                Event::Spawn(color, pos) => {
                    let placed = self.spawn(pos, color);
                    needs_update = needs_update || placed;
                    j = j + 1;
                    proof {
                        assert(self.state() =~~= apply_event(pre, prad, e).0);
                        assert(placed == spawn_places(pre, pos.0 as int, pos.1 as int, prad));
                    }
                },
                Event::Radius(r) => {
                    self.set_radius(r.get());
                    j = j + 1;
                    proof {
                        assert(self.spec_radius() == apply_event(pre, prad, e).1);
                    }
                },
                Event::Exit => {
                    exited = true;
                },
            }
            proof {
                if cleared && !(events@[j0] is Clear) {
                    assert(exists|k: int| 0 <= k < j0 && (#[trigger] events@[k]) is Clear);
                }
            }
        }
        if exited {
            return TickOutcome {
                publish: false,
                needs_update,
                exit: true,
                ran_update: false,
                moves: Ghost(Seq::empty()),
            };
        }
        proof {
            assert(events@.skip(events@.len() as int) =~= Seq::<Event>::empty());
            assert(m == run_events(
                self.state(),
                self.spec_radius(),
                needs_update,
                Seq::<Event>::empty(),
            ));
            assert(m.0 == self.state() && m.1 == self.spec_radius() && m.2 == needs_update);
        }
        let mut ran_update = false;
        let mut needs_out = needs_update;
        let ghost mut mv: Seq<Change> = Seq::empty();
        if needs_update {
            let ghost lg = self.log().len() as int;
            needs_out = self.update();
            ran_update = true;
            proof {
                mv = self.log().skip(lg);
                assert(gravity_step(m.0, self.state(), mv, needs_out));
            }
        }
        TickOutcome {
            publish: cleared || ran_update,
            needs_update: needs_out,
            exit: false,
            ran_update,
            moves: Ghost(mv),
        }
    }
}

/// Reverts the transient preview pixels recorded in `temporaries` back
/// to the empty sentinel and forgets them: the consumer calls this on
/// its frame buffer before reusing it, so preview pixels never outlive
/// one frame.
pub fn revert_overlay(buffer: &mut Vec<u32>, temporaries: &mut Vec<usize>)
    requires
        forall|k: int|
            0 <= k < old(temporaries)@.len() ==> (#[trigger] old(temporaries)@[k]) < old(
                buffer,
            )@.len(),
    ensures
        final(buffer)@.len() == old(buffer)@.len(),
        forall|i: int|
            0 <= i < old(buffer)@.len() ==> final(buffer)@[i] == (if old(temporaries)@.contains(
                i as usize,
            ) {
                EMPTY
            } else {
                old(buffer)@[i]
            }),
        final(temporaries)@.len() == 0,
{
    let n = temporaries.len();
    let blen = buffer.len();
    let mut k: usize = 0;
    while k < n
        invariant
            k <= n,
            n == temporaries@.len(),
            temporaries@ == old(temporaries)@,
            blen == old(buffer)@.len(),
            buffer@.len() == old(buffer)@.len(),
            forall|q: int|
                0 <= q < n ==> (#[trigger] temporaries@[q]) < old(buffer)@.len(),
            forall|q: int|
                0 <= q < k ==> buffer@[(#[trigger] temporaries@[q]) as int] == EMPTY,
            forall|i: int|
                0 <= i < old(buffer)@.len() && !old(temporaries)@.contains(i as usize)
                    ==> #[trigger] buffer@[i] == old(buffer)@[i],
        decreases n - k,
    {
        let t = temporaries[k];
        proof {
            assert(temporaries@.contains(t));
        }
        buffer.set(t, EMPTY);
        k = k + 1;
    }
    proof {
        assert forall|i: int|
            0 <= i < old(buffer)@.len() implies #[trigger] buffer@[i] == (if old(
                temporaries,
            )@.contains(i as usize) {
                EMPTY
            } else {
                old(buffer)@[i]
            }) by {
            assert((i as usize) as int == i);
            if old(temporaries)@.contains(i as usize) {
                let q = choose|q: int|
                    0 <= q < temporaries@.len() && temporaries@[q] == i as usize;
                assert(buffer@[temporaries@[q] as int] == EMPTY);
            }
        }
    }
    temporaries.clear();
}

/// Draws the brush-cursor preview into a frame buffer of `width` x
/// `height` packed colors: every empty cell of the disc around `pos` is
/// painted `color`, and its index is recorded in `temporaries` so the
/// consumer can revert exactly those pixels before the next frame.
pub fn draw_overlay(
    buffer: &mut Vec<u32>,
    temporaries: &mut Vec<usize>,
    color: u32,
    pos: (u16, u16),
    width: u16,
    height: u16,
    radius: u16,
)
    requires
        old(buffer)@.len() == (width as int) * (height as int),
        1 <= width,
        1 <= height,
        1 <= radius,
        color != EMPTY,
    ensures
        final(buffer)@.len() == old(buffer)@.len(),
        forall|i: int|
            0 <= i < old(buffer)@.len() ==> final(buffer)@[i] == (if disc_covers(
                pos.0 as int,
                pos.1 as int,
                radius as int,
                width as int,
                i,
            ) && old(buffer)@[i] == EMPTY {
                color
            } else {
                old(buffer)@[i]
            }),
        final(temporaries)@.len() >= old(temporaries)@.len(),
        final(temporaries)@.take(old(temporaries)@.len() as int) == old(temporaries)@,
        forall|k: int|
            old(temporaries)@.len() <= k < final(temporaries)@.len() ==> ((#[trigger] final(
                temporaries
            )@[k]) < old(buffer)@.len() && old(buffer)@[final(temporaries)@[k] as int] == EMPTY
                && disc_covers(
                pos.0 as int,
                pos.1 as int,
                radius as int,
                width as int,
                final(temporaries)@[k] as int,
            )),
        forall|i: int|
            0 <= i < old(buffer)@.len() && #[trigger] disc_covers(
                pos.0 as int,
                pos.1 as int,
                radius as int,
                width as int,
                i,
            ) && old(buffer)@[i] == EMPTY ==> final(temporaries)@.skip(
                old(temporaries)@.len() as int,
            ).contains(i as usize),
        forall|k1: int, k2: int|
            #![trigger final(temporaries)@[k1], final(temporaries)@[k2]]
            old(temporaries)@.len() <= k1 < k2 < final(temporaries)@.len() ==> final(
                temporaries
            )@[k1] != final(temporaries)@[k2],
{
    let ghost orig = buffer@;
    let ghost t0 = temporaries@;
    let ghost cx = pos.0 as int;
    let ghost cy = pos.1 as int;
    let ghost r = radius as int;
    let ghost w = width as int;
    let ghost h = height as int;
    let offs = circle_offsets(radius);
    let mut oi: usize = 0;
    while oi < offs.len()
        invariant
            1 <= w <= 0xFFFF,
            1 <= h <= 0xFFFF,
            1 <= r,
            w == width as int,
            h == height as int,
            r == radius as int,
            cx == pos.0 as int,
            cy == pos.1 as int,
            orig == old(buffer)@,
            t0 == old(temporaries)@,
            orig.len() == w * h,
            oi <= offs@.len(),
            forall|k: int|
                0 <= k < offs@.len() ==> in_disc(
                    (#[trigger] offs@[k]).0 as int,
                    offs@[k].1 as int,
                    r,
                ),
            forall|dx: int, dy: int|
                #[trigger] in_disc(dx, dy, r) ==> offs@.contains((dx as i32, dy as i32)),
            forall|k1: int, k2: int| 0 <= k1 < k2 < offs@.len() ==> offs@[k1] != offs@[k2],
            buffer@.len() == orig.len(),
            forall|i: int|
                0 <= i < orig.len() ==> buffer@[i] == (if covered_by(
                    offs@,
                    oi as int,
                    cx,
                    cy,
                    w,
                    h,
                    i,
                ) && orig[i] == EMPTY {
                    color
                } else {
                    orig[i]
                }),
            temporaries@.len() >= t0.len(),
            temporaries@.take(t0.len() as int) == t0,
            color != EMPTY,
            forall|k: int|
                t0.len() <= k < temporaries@.len() ==> ((#[trigger] temporaries@[k])
                    < orig.len() && orig[temporaries@[k] as int] == EMPTY && disc_covers(
                    cx,
                    cy,
                    r,
                    w,
                    temporaries@[k] as int,
                )),
            forall|k: int|
                t0.len() <= k < temporaries@.len() ==> buffer@[(#[trigger] temporaries@[k]) as int]
                    == color,
            forall|k1: int, k2: int|
                #![trigger temporaries@[k1], temporaries@[k2]]
                t0.len() <= k1 < k2 < temporaries@.len() ==> temporaries@[k1]
                    != temporaries@[k2],
            forall|i: int|
                0 <= i < orig.len() && #[trigger] covered_by(offs@, oi as int, cx, cy, w, h, i)
                    && orig[i] == EMPTY ==> exists|q: int|
                    t0.len() <= q < temporaries@.len() && (#[trigger] temporaries@[q]) == i
                        as usize,
        decreases offs@.len() - oi,
    {
        let ghost oi0 = oi as int;
        let (dx, dy) = offs[oi];
        proof {
            assert(in_disc(offs@[oi0].0 as int, offs@[oi0].1 as int, r));
        }
        let x = pos.0 as i32 + dx;
        let y = pos.1 as i32 + dy;
        if x >= 0 && x < width as i32 && y >= 0 && y < height as i32 {
            proof {
                lemma_idx_bound(y as int, x as int, w, h);
                assert(h * w == w * h && h * w <= 0xFFFF_FFFF) by (nonlinear_arith)
                    requires
                        1 <= h <= 0xFFFF,
                        1 <= w <= 0xFFFF,
                ;
            }
            let index = (y as u32) * (width as u32) + (x as u32);
            let ghost ii = index as int;
            if buffer[index as usize] == EMPTY {
                proof {
                    if covered_by(offs@, oi0, cx, cy, w, h, ii) && orig[ii] == EMPTY {
                        assert(buffer@[ii] == color);
                    }
                    assert(orig[ii] == EMPTY);
                    lemma_rowcol(ii, w, y as int, x as int);
                }
                let ghost tp = temporaries@;
                buffer.set(index as usize, color);
                temporaries.push(index as usize);
                proof {
                    assert(temporaries@.take(t0.len() as int) =~= t0);
                    assert(temporaries@[tp.len() as int] == index as usize);
                    assert(forall|q: int| 0 <= q < tp.len() ==> temporaries@[q] == #[trigger] tp[q]);
                }
            } else {
                proof {
                    if !(covered_by(offs@, oi0, cx, cy, w, h, ii) && orig[ii] == EMPTY) {
                        assert(buffer@[ii] == orig[ii]);
                    }
                }
            }
        }
        oi = oi + 1;
        proof {
            assert forall|i: int|
                0 <= i < orig.len() && covered_by(offs@, oi as int, cx, cy, w, h, i)
                    && !covered_by(offs@, oi0, cx, cy, w, h, i) implies off_hits(
                offs@[oi0],
                cx,
                cy,
                w,
                h,
                i,
            ) by {
                let k = choose|k: int|
                    0 <= k < oi as int && off_hits(#[trigger] offs@[k], cx, cy, w, h, i);
                assert(k == oi0);
            }
            assert forall|i: int|
                0 <= i < orig.len() && covered_by(offs@, oi0, cx, cy, w, h, i) implies covered_by(
                offs@,
                oi as int,
                cx,
                cy,
                w,
                h,
                i,
            ) by {
                let k = choose|k: int|
                    0 <= k < oi0 && off_hits(#[trigger] offs@[k], cx, cy, w, h, i);
                assert(0 <= k < oi as int && off_hits(offs@[k], cx, cy, w, h, i));
            }
            if 0 <= cx + offs@[oi0].0 < w && 0 <= cy + offs@[oi0].1 < h {
                let ti = (cy + offs@[oi0].1) * w + (cx + offs@[oi0].0);
                lemma_idx_bound(cy + offs@[oi0].1, cx + offs@[oi0].0, w, h);
                assert(h * w == w * h) by (nonlinear_arith);
                assert(off_hits(offs@[oi0], cx, cy, w, h, ti));
                assert(covered_by(offs@, oi as int, cx, cy, w, h, ti));
                lemma_rowcol(ti, w, cy + offs@[oi0].1, cx + offs@[oi0].0);
            } else {
                assert forall|i: int|
                    0 <= i < orig.len() implies !off_hits(offs@[oi0], cx, cy, w, h, i) by {}
            }
        }
    }
    proof {
        assert forall|i: int|
            0 <= i < orig.len() && #[trigger] disc_covers(cx, cy, r, w, i) implies covered_by(
            offs@,
            offs@.len() as int,
            cx,
            cy,
            w,
            h,
            i,
        ) by {
            lemma_div_bounds(i, w, h);
            let dx = i % w - cx;
            let dy = i / w - cy;
            assert(in_disc(dx, dy, r));
            assert(offs@.contains((dx as i32, dy as i32)));
            let k = choose|k: int| 0 <= k < offs@.len() && offs@[k] == (dx as i32, dy as i32);
            assert(offs@[k].0 as int == dx && offs@[k].1 as int == dy);
            assert(off_hits(offs@[k], cx, cy, w, h, i));
        }
        assert forall|i: int|
            0 <= i < orig.len() && #[trigger] covered_by(
                offs@,
                offs@.len() as int,
                cx,
                cy,
                w,
                h,
                i,
            ) implies disc_covers(cx, cy, r, w, i) by {
            let k = choose|k: int|
                0 <= k < offs@.len() && off_hits(#[trigger] offs@[k], cx, cy, w, h, i);
            let ox = offs@[k].0 as int;
            let oy = offs@[k].1 as int;
            lemma_rowcol(i, w, cy + oy, cx + ox);
            assert(in_disc(ox, oy, r));
        }
        assert forall|i: int|
            0 <= i < orig.len() && #[trigger] disc_covers(cx, cy, r, w, i) && orig[i]
                == EMPTY implies temporaries@.skip(t0.len() as int).contains(i as usize) by {
            assert(covered_by(offs@, offs@.len() as int, cx, cy, w, h, i));
            let q = choose|q: int|
                t0.len() <= q < temporaries@.len() && (#[trigger] temporaries@[q]) == i as usize;
            assert(temporaries@.skip(t0.len() as int)[q - t0.len()] == i as usize);
        }
    }
}

} // verus!
