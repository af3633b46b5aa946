//! The resize engine: reflows a flat row-major color buffer to new
//! dimensions in place.  Width changes anchor content at the left edge;
//! height changes anchor it at the bottom, so new rows appear at the top
//! and shrinking drops the topmost rows.

use vstd::prelude::*;

use crate::grid::EMPTY;

verus! {

/// The buffer that a resize from `old_w` x `old_h` to `new_w` x `new_h`
/// must produce: the overlapping left-anchored, bottom-anchored rectangle
/// keeps its content, everything else is the empty sentinel.
pub open spec fn resize_spec(
    cells: Seq<u32>,
    old_w: int,
    old_h: int,
    new_w: int,
    new_h: int,
) -> Seq<u32> {
    Seq::new(
        (new_w * new_h) as nat,
        |i: int|
            {
                let x = i % new_w;
                let y = i / new_w;
                let oy = y - new_h + old_h;
                if x < old_w && oy >= 0 {
                    cells[oy * old_w + x]
                } else {
                    EMPTY
                }
            },
    )
}

/// The buffer after the width phase alone: each of the `h` rows now has
/// `new_w` cells, left-anchored, right-filled with the sentinel.
pub open spec fn width_adjusted(cells: Seq<u32>, old_w: int, h: int, new_w: int) -> Seq<u32> {
    Seq::new(
        (h * new_w) as nat,
        |i: int|
            {
                let x = i % new_w;
                let y = i / new_w;
                if x < old_w {
                    cells[y * old_w + x]
                } else {
                    EMPTY
                }
            },
    )
}

/// The buffer after the height phase alone: bottom-anchored rows, new rows
/// at the top filled with the sentinel.
pub open spec fn height_adjusted(cells: Seq<u32>, w: int, old_h: int, new_h: int) -> Seq<u32> {
    Seq::new(
        (w * new_h) as nat,
        |i: int|
            {
                let x = i % w;
                let oy = i / w - new_h + old_h;
                if oy >= 0 {
                    cells[oy * w + x]
                } else {
                    EMPTY
                }
            },
    )
}

/// Row-major index arithmetic: `y * w + x` sits in row `y`, column `x`.
pub(crate) proof fn lemma_rowcol(i: int, w: int, y: int, x: int)
    by (nonlinear_arith)
    requires
        w >= 1,
        0 <= x < w,
        0 <= y,
        i == y * w + x,
    ensures
        i / w == y,
        i % w == x,
{
}

/// A cell of row `y` lies before the end of row `y` and of every later row.
pub(crate) proof fn lemma_idx_bound(y: int, x: int, w: int, h: int)
    by (nonlinear_arith)
    requires
        w >= 1,
        0 <= x < w,
        0 <= y < h,
    ensures
        0 <= y * w + x < h * w,
        y * w + x < (y + 1) * w,
        (y + 1) * w <= h * w,
        0 <= y * w <= y * w + x,
{
}

/// Multiplying a smaller row count or width by the same factor keeps order.
proof fn lemma_mul_le(a: int, b: int, c: int)
    by (nonlinear_arith)
    requires
        0 <= a <= b,
        0 <= c,
    ensures
        a * c <= b * c,
        c * a <= c * b,
{
}

/// The two phases compose to the full resize contract, width first.
proof fn lemma_phases_compose(cells: Seq<u32>, old_w: int, old_h: int, new_w: int, new_h: int)
    requires
        old_w >= 1,
        old_h >= 1,
        new_w >= 1,
        new_h >= 1,
        cells.len() == old_w * old_h,
    ensures
        height_adjusted(width_adjusted(cells, old_w, old_h, new_w), new_w, old_h, new_h)
            == resize_spec(cells, old_w, old_h, new_w, new_h),
{
    let wa = width_adjusted(cells, old_w, old_h, new_w);
    let ha = height_adjusted(wa, new_w, old_h, new_h);
    let rs = resize_spec(cells, old_w, old_h, new_w, new_h);
    assert forall|i: int| 0 <= i < new_w * new_h implies ha[i] == rs[i] by {
        let x = i % new_w;
        let y = i / new_w;
        let oy = y - new_h + old_h;
        lemma_div_bounds(i, new_w, new_h);
        if oy >= 0 {
            let j = oy * new_w + x;
            lemma_idx_bound(oy, x, new_w, old_h);
            lemma_rowcol(j, new_w, oy, x);
        }
    }
    assert(ha =~= rs);
}

/// A row-major index below `h * w` has its row below `h` and its column
/// below `w`.
pub(crate) proof fn lemma_div_bounds(i: int, w: int, h: int)
    by (nonlinear_arith)
    requires
        w >= 1,
        h >= 1,
        0 <= i < h * w,
    ensures
        0 <= i % w < w,
        0 <= i / w < h,
        i == (i / w) * w + (i % w),
{
}

/// Width shrink: compacts each row to its first `new_w` cells, top row
/// first, then truncates the buffer.
fn shrink_width(buffer: &mut Vec<u32>, old_w: usize, h: usize, new_w: usize)
    requires
        1 <= new_w < old_w,
        1 <= h,
        old(buffer)@.len() == old_w * h,
    ensures
        final(buffer)@ == width_adjusted(old(buffer)@, old_w as int, h as int, new_w as int),
{
    let ghost orig = buffer@;
    let ghost target = width_adjusted(orig, old_w as int, h as int, new_w as int);
    let len = buffer.len();
    proof {
        assert(h * new_w <= old_w * h) by (nonlinear_arith)
            requires
                1 <= new_w < old_w,
                1 <= h,
        ;
    }
    let mut next_insert: usize = 0;
    let mut row: usize = 0;
    while row < h
        invariant
            row <= h,
            1 <= new_w < old_w,
            1 <= h,
            next_insert == row * new_w,
            len == old_w * h,
            buffer@.len() == len,
            orig.len() == len,
            h * new_w <= len,
            target == width_adjusted(orig, old_w as int, h as int, new_w as int),
            forall|j: int| 0 <= j < row * new_w ==> buffer@[j] == target[j],
            forall|j: int| row * old_w <= j < len ==> buffer@[j] == orig[j],
        decreases h - row,
    {
        let ghost row0 = row as int;
        proof {
            assert(row0 * old_w + old_w <= old_w * h && row0 * new_w + new_w <= h * new_w
                && row0 * new_w <= row0 * old_w && 0 <= row0 * new_w) by (nonlinear_arith)
                requires
                    0 <= row0 < h,
                    1 <= new_w < old_w,
            ;
        }
        let row_offset = row * old_w;
        let mut k: usize = 0;
        while k < new_w
            invariant
                k <= new_w,
                1 <= new_w < old_w,
                1 <= h,
                0 <= row0 < h,
                row == row0,
                row_offset == row0 * old_w,
                next_insert == row0 * new_w,
                row0 * old_w + old_w <= old_w * h,
                row0 * new_w + new_w <= h * new_w,
                row0 * new_w <= row0 * old_w,
                len == old_w * h,
                buffer@.len() == len,
                orig.len() == len,
                h * new_w <= len,
                target == width_adjusted(orig, old_w as int, h as int, new_w as int),
                forall|j: int| 0 <= j < row0 * new_w + k ==> buffer@[j] == target[j],
                forall|j: int| row0 * old_w + k <= j < len ==> buffer@[j] == orig[j],
            decreases new_w - k,
        {
            let v = buffer[row_offset + k];
            proof {
                lemma_rowcol(row0 * new_w + k, new_w as int, row0, k as int);
                assert(target[row0 * new_w + k] == orig[row0 * old_w + k]);
            }
            buffer.set(next_insert + k, v);
            k = k + 1;
        }
        row = row + 1;
        next_insert = next_insert + new_w;
        proof {
            assert(row * new_w == row0 * new_w + new_w && row * old_w == row0 * old_w + old_w)
                by (nonlinear_arith)
                requires
                    row == row0 + 1,
            ;
        }
    }
    buffer.truncate(h * new_w);
    proof {
        assert(buffer@ =~= target);
    }
}

/// Width growth: walks rows bottom-up so a relocated row never overwrites a
/// row that has not moved yet, then fills each row's new tail with the
/// sentinel.
fn grow_width(buffer: &mut Vec<u32>, old_w: usize, h: usize, new_w: usize)
    requires
        1 <= old_w < new_w,
        1 <= h,
        old(buffer)@.len() == old_w * h,
        h * new_w <= usize::MAX,
    ensures
        final(buffer)@ == width_adjusted(old(buffer)@, old_w as int, h as int, new_w as int),
{
    let ghost orig = buffer@;
    let ghost target = width_adjusted(orig, old_w as int, h as int, new_w as int);
    let old_len = buffer.len();
    let new_len = h * new_w;
    proof {
        assert(old_w * h <= h * new_w) by (nonlinear_arith)
            requires
                1 <= old_w < new_w,
                1 <= h,
        ;
    }
    while buffer.len() < new_len
        invariant
            buffer@.len() <= new_len,
            old_len <= buffer@.len(),
            forall|j: int| 0 <= j < old_len ==> buffer@[j] == orig[j],
        decreases new_len - buffer@.len(),
    {
        buffer.push(EMPTY);
    }
    proof {
        assert(h * old_w == old_w * h) by (nonlinear_arith);
    }
    let mut r: usize = h;
    while r > 0
        invariant
            r <= h,
            1 <= old_w < new_w,
            1 <= h,
            old_len == old_w * h,
            new_len == h * new_w,
            orig.len() == old_len,
            buffer@.len() == new_len,
            target == width_adjusted(orig, old_w as int, h as int, new_w as int),
            forall|j: int| r * new_w <= j < new_len ==> buffer@[j] == target[j],
            forall|j: int| 0 <= j < r * old_w ==> buffer@[j] == orig[j],
        decreases r,
    {
        let row = r - 1;
        let ghost row0 = row as int;
        proof {
            assert(row0 * old_w + old_w <= old_w * h && row0 * new_w + new_w <= h * new_w
                && row0 * old_w <= row0 * new_w && 0 <= row0 * old_w && r * old_w == row0
                * old_w + old_w && r * new_w == row0 * new_w + new_w) by (nonlinear_arith)
                requires
                    0 <= row0 < h,
                    r == row0 + 1,
                    1 <= old_w < new_w,
            ;
        }
        let new_start = row * new_w;
        let row_offset = row * old_w;
        let mut k: usize = old_w;
        while k > 0
            invariant
                k <= old_w,
                1 <= old_w < new_w,
                1 <= h,
                0 <= row0 < h,
                new_start == row0 * new_w,
                row_offset == row0 * old_w,
                row0 * old_w + old_w <= old_w * h,
                row0 * new_w + new_w <= h * new_w,
                row0 * old_w <= row0 * new_w,
                old_len == old_w * h,
                new_len == h * new_w,
                orig.len() == old_len,
                buffer@.len() == new_len,
                target == width_adjusted(orig, old_w as int, h as int, new_w as int),
                forall|j: int|
                    row0 * new_w + k <= j < row0 * new_w + old_w ==> buffer@[j] == target[j],
                forall|j: int|
                    (row0 + 1) * new_w <= j < new_len ==> buffer@[j] == target[j],
                forall|j: int| 0 <= j < row0 * old_w + k ==> buffer@[j] == orig[j],
            decreases k,
        {
            let col = k - 1;
            let v = buffer[row_offset + col];
            proof {
                lemma_rowcol(row0 * new_w + col, new_w as int, row0, col as int);
                assert(target[row0 * new_w + col] == orig[row0 * old_w + col]);
            }
            buffer.set(new_start + col, v);
            k = k - 1;
        }
        let mut k2: usize = old_w;
        while k2 < new_w
            invariant
                old_w <= k2 <= new_w,
                1 <= old_w < new_w,
                1 <= h,
                0 <= row0 < h,
                new_start == row0 * new_w,
                row0 * old_w + old_w <= old_w * h,
                row0 * new_w + new_w <= h * new_w,
                row0 * old_w <= row0 * new_w,
                old_len == old_w * h,
                new_len == h * new_w,
                orig.len() == old_len,
                buffer@.len() == new_len,
                target == width_adjusted(orig, old_w as int, h as int, new_w as int),
                forall|j: int| row0 * new_w <= j < row0 * new_w + k2 ==> buffer@[j] == target[j],
                forall|j: int|
                    (row0 + 1) * new_w <= j < new_len ==> buffer@[j] == target[j],
                forall|j: int| 0 <= j < row0 * old_w ==> buffer@[j] == orig[j],
            decreases new_w - k2,
        {
            proof {
                lemma_rowcol(row0 * new_w + k2, new_w as int, row0, k2 as int);
                assert(target[row0 * new_w + k2] == EMPTY);
            }
            buffer.set(new_start + k2, EMPTY);
            k2 = k2 + 1;
        }
        r = r - 1;
        proof {
            assert(r * new_w == row0 * new_w && r * old_w == row0 * old_w);
        }
    }
    proof {
        assert(buffer@ =~= target);
    }
}

/// Height shrink: removes the leading (topmost) rows beyond the kept
/// height by shifting the kept suffix to the front.
fn shrink_height(buffer: &mut Vec<u32>, w: usize, old_h: usize, new_h: usize)
    requires
        1 <= new_h < old_h,
        1 <= w,
        old(buffer)@.len() == w * old_h,
    ensures
        final(buffer)@ == height_adjusted(old(buffer)@, w as int, old_h as int, new_h as int),
{
    let ghost orig = buffer@;
    let ghost target = height_adjusted(orig, w as int, old_h as int, new_h as int);
    let len = buffer.len();
    proof {
        assert(w * new_h + w * (old_h - new_h) == w * old_h && 0 < w * (old_h - new_h) && 0 < w
            * new_h && w * new_h == new_h * w) by (nonlinear_arith)
            requires
                1 <= new_h < old_h,
                1 <= w,
        ;
    }
    let off = w * (old_h - new_h);
    let keep = w * new_h;
    let mut i: usize = 0;
    while i < keep
        invariant
            i <= keep,
            keep == w * new_h,
            off == w * (old_h - new_h),
            keep + off == len,
            len == w * old_h,
            buffer@.len() == len,
            orig.len() == len,
            forall|j: int| 0 <= j < i ==> buffer@[j] == orig[j + off],
            forall|j: int| i + off <= j < len ==> buffer@[j] == orig[j],
        decreases keep - i,
    {
        let v = buffer[i + off];
        buffer.set(i, v);
        i = i + 1;
    }
    buffer.truncate(keep);
    proof {
        assert forall|j: int| 0 <= j < keep implies buffer@[j] == target[j] by {
            lemma_div_bounds(j, w as int, new_h as int);
            let x = j % (w as int);
            let y = j / (w as int);
            let oy = y - new_h + old_h;
            assert(oy * w + x == j + off) by (nonlinear_arith)
                requires
                    j == y * w + x,
                    oy == y + old_h - new_h,
                    off == w * (old_h - new_h),
            ;
        }
        assert(buffer@ =~= target);
    }
}

/// Height growth: extends the buffer, shifts the content to the bottom,
/// and fills the newly exposed top rows with the sentinel.
fn grow_height(buffer: &mut Vec<u32>, w: usize, old_h: usize, new_h: usize)
    requires
        1 <= old_h < new_h,
        1 <= w,
        old(buffer)@.len() == w * old_h,
        w * new_h <= usize::MAX,
    ensures
        final(buffer)@ == height_adjusted(old(buffer)@, w as int, old_h as int, new_h as int),
{
    let ghost orig = buffer@;
    let ghost target = height_adjusted(orig, w as int, old_h as int, new_h as int);
    let old_len = buffer.len();
    let new_len = w * new_h;
    proof {
        assert(w * old_h + w * (new_h - old_h) == w * new_h && 0 < w * (new_h - old_h))
            by (nonlinear_arith)
            requires
                1 <= old_h < new_h,
                1 <= w,
        ;
    }
    let off = w * (new_h - old_h);
    while buffer.len() < new_len
        invariant
            buffer@.len() <= new_len,
            old_len <= buffer@.len(),
            forall|j: int| 0 <= j < old_len ==> buffer@[j] == orig[j],
        decreases new_len - buffer@.len(),
    {
        buffer.push(EMPTY);
    }
    let mut i: usize = old_len;
    while i > 0
        invariant
            i <= old_len,
            old_len == w * old_h,
            new_len == w * new_h,
            off == w * (new_h - old_h),
            old_len + off == new_len,
            orig.len() == old_len,
            buffer@.len() == new_len,
            forall|j: int| 0 <= j < i ==> buffer@[j] == orig[j],
            forall|j: int| i + off <= j < new_len ==> buffer@[j] == orig[j - off],
        decreases i,
    {
        let j = i - 1;
        let v = buffer[j];
        buffer.set(off + j, v);
        i = i - 1;
    }
    let mut i2: usize = 0;
    while i2 < off
        invariant
            i2 <= off,
            old_len == w * old_h,
            new_len == w * new_h,
            off == w * (new_h - old_h),
            old_len + off == new_len,
            orig.len() == old_len,
            buffer@.len() == new_len,
            forall|j: int| 0 <= j < i2 ==> buffer@[j] == EMPTY,
            forall|j: int| off <= j < new_len ==> buffer@[j] == orig[j - off],
        decreases off - i2,
    {
        buffer.set(i2, EMPTY);
        i2 = i2 + 1;
    }
    proof {
        let d = new_h - old_h;
        assert forall|j: int| 0 <= j < new_len implies buffer@[j] == target[j] by {
            assert(w * new_h == new_h * w) by (nonlinear_arith);
            lemma_div_bounds(j, w as int, new_h as int);
            let x = j % (w as int);
            let y = j / (w as int);
            let oy = y - new_h + old_h;
            if y < d {
                assert(j < off) by (nonlinear_arith)
                    requires
                        j == y * w + x,
                        0 <= x < w,
                        0 <= y < d,
                        off == w * d,
                ;
            } else {
                assert(off <= j && oy * w + x == j - off) by (nonlinear_arith)
                    requires
                        j == y * w + x,
                        0 <= x < w,
                        d <= y,
                        oy == y - d,
                        off == w * d,
                ;
            }
        }
        assert(buffer@ =~= target);
    }
}

/// `width_adjusted` with an unchanged width is the identity.
proof fn lemma_width_identity(cells: Seq<u32>, w: int, h: int)
    requires
        w >= 1,
        h >= 1,
        cells.len() == w * h,
    ensures
        width_adjusted(cells, w, h, w) == cells,
{
    assert(w * h == h * w) by (nonlinear_arith);
    assert forall|i: int| 0 <= i < h * w implies width_adjusted(cells, w, h, w)[i] == cells[i] by {
        lemma_div_bounds(i, w, h);
    }
    assert(width_adjusted(cells, w, h, w) =~= cells);
}

/// `height_adjusted` with an unchanged height is the identity.
proof fn lemma_height_identity(cells: Seq<u32>, w: int, h: int)
    requires
        w >= 1,
        h >= 1,
        cells.len() == w * h,
    ensures
        height_adjusted(cells, w, h, h) == cells,
{
    assert(w * h == h * w) by (nonlinear_arith);
    assert forall|i: int| 0 <= i < w * h implies height_adjusted(cells, w, h, h)[i] == cells[i] by {
        lemma_div_bounds(i, w, h);
    }
    assert(height_adjusted(cells, w, h, h) =~= cells);
}

/// Reflows the buffer from `old_size` to `new_size` (each `(width, height)`,
/// both positive), adjusting width first and height second: the buffer
/// length is `old_height * new_width` between the phases, and the height
/// phase's row arithmetic assumes that.
pub fn smart_resize(buffer: &mut Vec<u32>, old_size: (usize, usize), new_size: (usize, usize))
    requires
        old_size.0 >= 1,
        old_size.1 >= 1,
        new_size.0 >= 1,
        new_size.1 >= 1,
        old(buffer)@.len() == old_size.0 * old_size.1,
        old_size.1 * new_size.0 <= usize::MAX,
        new_size.0 * new_size.1 <= usize::MAX,
    ensures
        final(buffer)@ == resize_spec(
            old(buffer)@,
            old_size.0 as int,
            old_size.1 as int,
            new_size.0 as int,
            new_size.1 as int,
        ),
{
    let (old_width, old_height) = old_size;
    let (new_width, new_height) = new_size;
    let ghost orig = buffer@;
    proof {
        assert(old_width * old_height == old_height * old_width && old_height * new_width
            == new_width * old_height) by (nonlinear_arith);
    }
    if new_width < old_width {
        shrink_width(buffer, old_width, old_height, new_width);
    } else if new_width > old_width {
        grow_width(buffer, old_width, old_height, new_width);
    } else {
        proof {
            lemma_width_identity(orig, old_width as int, old_height as int);
        }
    }
    let ghost mid = width_adjusted(orig, old_width as int, old_height as int, new_width as int);
    proof {
        assert(buffer@ == mid);
        assert(mid.len() == old_height * new_width);
    }
    if new_height < old_height {
        shrink_height(buffer, new_width, old_height, new_height);
    } else if new_height > old_height {
        proof {
            assert(new_width * new_height <= usize::MAX) by (nonlinear_arith)
                requires
                    new_width * new_height == new_size.0 * new_size.1,
                    new_size.0 * new_size.1 <= usize::MAX,
            ;
        }
        grow_height(buffer, new_width, old_height, new_height);
    } else {
        proof {
            assert(new_width * old_height == old_height * new_width) by (nonlinear_arith);
            lemma_height_identity(mid, new_width as int, old_height as int);
        }
    }
    proof {
        lemma_phases_compose(
            orig,
            old_width as int,
            old_height as int,
            new_width as int,
            new_height as int,
        );
    }
}

} // verus!
