//! Where one shot ends and the next begins. Each frame's luma is reduced to a
//! small grid of cell averages and compared with the previous frame's: a mean
//! absolute difference above the threshold is a cut.
//!
//! This module is the integer part of that rule: the luma of a run of pixels,
//! the grid of cell averages, and the total absolute difference between two
//! grids.
use vstd::prelude::*;
use crate::pixel::PixFmt;
use crate::composite::{gap, least};
use vstd::arithmetic::div_mod::{
    lemma_div_is_ordered, lemma_div_multiples_vanish, lemma_div_pos_is_pos, lemma_fundamental_div_mod,
    lemma_mod_pos_bound,
};

verus! {

/// Cells a frame is reduced to, per side. Small enough that a moving subject
/// barely moves the average, large enough that a new picture moves all of them.
pub const GRID: usize = 32;

/// The luma of one rgb pixel by the standard weights, rounded down.
pub open spec fn luma(r: u8, g: u8, b: u8) -> int {
    (r * 299 + g * 587 + b * 114) / 1000
}

/// The luma of pixel (`x`, `y`) of a frame `width` pixels wide.
pub open spec fn pixel_luma(frame: Seq<u8>, pix_fmt: PixFmt, width: int, y: int, x: int) -> int {
    match pix_fmt {
        PixFmt::Yuv420p => frame[y * width + x] as int,
        PixFmt::Rgba => {
            let base = (y * width + x) * 4;
            luma(frame[base], frame[base + 1], frame[base + 2])
        },
    }
}

/// The luma of the `n` pixels of row `y` from column `x0` on, totalled.
pub open spec fn run_luma(frame: Seq<u8>, pix_fmt: PixFmt, width: int, y: int, x0: int, n: int) -> int
    decreases n,
{
    if n <= 0 {
        0
    } else {
        run_luma(frame, pix_fmt, width, y, x0, n - 1) + pixel_luma(frame, pix_fmt, width, y, x0 + n - 1)
    }
}

/// Columns `x0..x1` of row `y` lie inside a frame of `len` bytes, and the
/// index arithmetic that reaches them stays inside `usize`.
pub open spec fn run_readable(len: int, pix_fmt: PixFmt, width: int, y: int, x0: int, x1: int) -> bool {
    &&& 0 <= y
    &&& 0 <= x0 <= x1
    &&& match pix_fmt {
        PixFmt::Yuv420p => y * width + x1 <= len,
        PixFmt::Rgba => (y * width + x1) * 4 <= len,
    }
}

/// The luma of one run of one row, totalled. yuv420p carries luma in the
/// first plane; rgba is converted with the standard weights, per pixel, so
/// each one rounds where it always did.
pub fn row_luma_sum(frame: &[u8], pix_fmt: PixFmt, width: usize, y: usize, x0: usize, x1: usize) -> (r: u32)
    requires
        run_readable(frame@.len() as int, pix_fmt, width as int, y as int, x0 as int, x1 as int),
        run_luma(frame@, pix_fmt, width as int, y as int, x0 as int, x1 - x0) <= u32::MAX,
    ensures
        r == run_luma(frame@, pix_fmt, width as int, y as int, x0 as int, x1 - x0),
{
    let ghost (w, yi) = (width as int, y as int);
    let len = frame.len();
    proof {
        assert(yi * w <= yi * w + x0);
        if pix_fmt == PixFmt::Rgba {
            assert((yi * w + x1) * 4 == yi * w * 4 + x1 * 4) by (nonlinear_arith);
            assert(yi * w + x1 <= (yi * w + x1) * 4) by (nonlinear_arith)
                requires
                    yi * w + x1 >= 0,
            ;
        }
    }
    let row = y * width;
    let mut total: u32 = 0;
    let mut x = x0;
    while x < x1
        invariant
            x0 <= x <= x1,
            row == yi * w,
            w == width,
            yi == y,
            run_readable(frame@.len() as int, pix_fmt, w, yi, x0 as int, x1 as int),
            len == frame@.len(),
            run_luma(frame@, pix_fmt, w, yi, x0 as int, x1 - x0) <= u32::MAX,
            total == run_luma(frame@, pix_fmt, w, yi, x0 as int, x - x0),
        decreases x1 - x,
    {
        proof {
            lemma_run_luma_grows(frame@, pix_fmt, w, yi, x0 as int, x + 1 - x0, x1 - x0);
            lemma_pixel_luma_bounded(frame@, pix_fmt, w, yi, x as int);
        }
        let value: u32 = match pix_fmt {
            PixFmt::Yuv420p => frame[row + x] as u32,
            PixFmt::Rgba => {
                proof {
                    assert((row + x) * 4 + 3 < (yi * w + x1) * 4) by (nonlinear_arith)
                        requires
                            x < x1,
                            row == yi * w,
                    ;
                }
                let base = (row + x) * 4;
                let r = frame[base] as u32;
                let g = frame[base + 1] as u32;
                let b = frame[base + 2] as u32;
                (r * 299 + g * 587 + b * 114) / 1000
            },
        };
        total = total + value;
        x += 1;
    }
    total
}

/// One pixel's luma fits a byte.
proof fn lemma_pixel_luma_bounded(frame: Seq<u8>, pix_fmt: PixFmt, width: int, y: int, x: int)
    ensures
        0 <= pixel_luma(frame, pix_fmt, width, y, x) <= 255,
{
    if pix_fmt == PixFmt::Rgba {
        let base = (y * width + x) * 4;
        let (r, g, b) = (frame[base], frame[base + 1], frame[base + 2]);
        assert(0 <= luma(r, g, b) <= 255) by (nonlinear_arith)
            requires
                0 <= r <= 255,
                0 <= g <= 255,
                0 <= b <= 255,
        {
            assert(r * 299 + g * 587 + b * 114 <= 255 * 1000);
        }
    }
}

/// A run's total only grows as the run does.
proof fn lemma_run_luma_grows(frame: Seq<u8>, pix_fmt: PixFmt, width: int, y: int, x0: int, n: int, m: int)
    requires
        0 <= n <= m,
    ensures
        0 <= run_luma(frame, pix_fmt, width, y, x0, n) <= run_luma(frame, pix_fmt, width, y, x0, m),
    decreases m,
{
    if m > 0 {
        lemma_pixel_luma_bounded(frame, pix_fmt, width, y, x0 + m - 1);
        if n < m {
            lemma_run_luma_grows(frame, pix_fmt, width, y, x0, n, m - 1);
        } else {
            lemma_run_luma_grows(frame, pix_fmt, width, y, x0, n - 1, m - 1);
        }
    }
}


/// Where the `i`th of the grid's spans along an axis of `extent` pixels starts.
pub open spec fn span_start(i: int, extent: int) -> int {
    i * extent / 32
}

/// Where the `i`th span along an axis of `extent` pixels ends: at the next
/// span's start, but never before it has taken one pixel.
pub open spec fn span_end(i: int, extent: int) -> int {
    let e = (i + 1) * extent / 32;
    if e > span_start(i, extent) {
        e
    } else {
        span_start(i, extent) + 1
    }
}

/// The luma of the first `n` rows from `y0` of columns `x0..x1`, totalled.
pub open spec fn rows_luma(frame: Seq<u8>, pix_fmt: PixFmt, width: int, y0: int, x0: int, x1: int, n: int) -> int
    decreases n,
{
    if n <= 0 {
        0
    } else {
        rows_luma(frame, pix_fmt, width, y0, x0, x1, n - 1) + run_luma(
            frame,
            pix_fmt,
            width,
            y0 + n - 1,
            x0,
            x1 - x0,
        )
    }
}

/// The total luma of grid cell (`cx`, `cy`).
pub open spec fn cell_total(frame: Seq<u8>, pix_fmt: PixFmt, width: int, height: int, cx: int, cy: int) -> int {
    let (y0, y1) = (span_start(cy, height), span_end(cy, height));
    rows_luma(frame, pix_fmt, width, y0, span_start(cx, width), span_end(cx, width), y1 - y0)
}

/// How many pixels grid cell (`cx`, `cy`) covers.
pub open spec fn cell_count(width: int, height: int, cx: int, cy: int) -> int {
    (span_end(cy, height) - span_start(cy, height)) * (span_end(cx, width) - span_start(cx, width))
}

/// The average luma of grid cell (`cx`, `cy`), as the reduction writes it:
/// the pixel count taken as a `u32` and never below 1, the quotient as a byte.
pub open spec fn cell_average(frame: Seq<u8>, pix_fmt: PixFmt, width: int, height: int, cx: int, cy: int) -> u8 {
    let count = cell_count(width, height, cx, cy) as u32;
    let divisor = if count >= 1 {
        count as int
    } else {
        1
    };
    (cell_total(frame, pix_fmt, width, height, cx, cy) / divisor) as u8
}

/// Grid cell (`cx`, `cy`) can be read and totalled without leaving the frame
/// or overflowing.
pub open spec fn cell_ok(frame: Seq<u8>, pix_fmt: PixFmt, width: int, height: int, cx: int, cy: int) -> bool {
    &&& cell_count(width, height, cx, cy) <= usize::MAX
    &&& cell_total(frame, pix_fmt, width, height, cx, cy) <= u32::MAX
    &&& forall|y: int|
        span_start(cy, height) <= y < span_end(cy, height) ==> #[trigger] run_readable(
            frame.len() as int,
            pix_fmt,
            width,
            y,
            span_start(cx, width),
            span_end(cx, width),
        )
}

/// Every cell of the grid can be reduced.
pub open spec fn reducible(frame: Seq<u8>, pix_fmt: PixFmt, width: int, height: int) -> bool {
    &&& 32 * width <= usize::MAX
    &&& 32 * height <= usize::MAX
    &&& forall|cx: int, cy: int|
        0 <= cx < 32 && 0 <= cy < 32 ==> #[trigger] cell_ok(frame, pix_fmt, width, height, cx, cy)
}

/// Adding rows to a cell only grows its total.
proof fn lemma_rows_luma_grows(
    frame: Seq<u8>,
    pix_fmt: PixFmt,
    width: int,
    y0: int,
    x0: int,
    x1: int,
    n: int,
    m: int,
)
    requires
        0 <= n <= m,
        x0 <= x1,
    ensures
        0 <= rows_luma(frame, pix_fmt, width, y0, x0, x1, n) <= rows_luma(
            frame,
            pix_fmt,
            width,
            y0,
            x0,
            x1,
            m,
        ),
    decreases m,
{
    if m > 0 {
        lemma_run_luma_grows(frame, pix_fmt, width, y0 + m - 1, x0, 0, x1 - x0);
        if n < m {
            lemma_rows_luma_grows(frame, pix_fmt, width, y0, x0, x1, n, m - 1);
        } else {
            lemma_rows_luma_grows(frame, pix_fmt, width, y0, x0, x1, n - 1, m - 1);
        }
    }
}

/// A span starts no later than the next one, and never past the axis.
proof fn lemma_span_order(i: int, extent: int)
    requires
        0 <= i < 32,
        0 <= extent,
    ensures
        0 <= span_start(i, extent) <= (i + 1) * extent / 32 <= extent,
        span_start(i, extent) < span_end(i, extent),
{
    assert(0 <= i * extent <= (i + 1) * extent <= 32 * extent) by (nonlinear_arith)
        requires
            0 <= i < 32,
            0 <= extent,
    ;
    lemma_div_is_ordered(i * extent, (i + 1) * extent, 32);
    lemma_div_is_ordered((i + 1) * extent, 32 * extent, 32);
    lemma_div_multiples_vanish(extent, 32);
    lemma_div_pos_is_pos(i * extent, 32);
}

/// The frame's luma as `GRID`x`GRID` cell averages, written into `cells`. A
/// frame smaller than the grid repeats pixels rather than leaving cells empty.
pub fn downsample(frame: &[u8], pix_fmt: PixFmt, width: usize, height: usize, cells: &mut Vec<u8>)
    requires
        reducible(frame@, pix_fmt, width as int, height as int),
    ensures
        final(cells)@.len() == GRID * GRID,
        forall|cx: int, cy: int|
            0 <= cx < 32 && 0 <= cy < 32 ==> #[trigger] final(cells)@[cy * 32 + cx] == cell_average(
                frame@,
                pix_fmt,
                width as int,
                height as int,
                cx,
                cy,
            ),
{
    let ghost (w, h) = (width as int, height as int);
    cells.clear();
    let mut cy: usize = 0;
    while cy < GRID
        invariant
            cy <= 32,
            w == width,
            h == height,
            reducible(frame@, pix_fmt, w, h),
            cells@.len() == cy * 32,
            forall|i: int, j: int|
                0 <= i < 32 && 0 <= j < cy ==> #[trigger] cells@[j * 32 + i] == cell_average(
                    frame@,
                    pix_fmt,
                    w,
                    h,
                    i,
                    j,
                ),
        decreases 32 - cy,
    {
        proof {
            lemma_span_order(cy as int, h);
        }
        let y0 = cy * height / GRID;
        let next_y = (cy + 1) * height / GRID;
        let y1 = if next_y > y0 { next_y } else { y0 + 1 };
        let mut cx: usize = 0;
        while cx < GRID
            invariant
                cy < 32,
                cx <= 32,
                w == width,
                h == height,
                y0 == span_start(cy as int, h),
                y1 == span_end(cy as int, h),
                reducible(frame@, pix_fmt, w, h),
                cells@.len() == cy * 32 + cx,
                forall|i: int, j: int|
                    0 <= i < 32 && 0 <= j < cy ==> #[trigger] cells@[j * 32 + i] == cell_average(
                        frame@,
                        pix_fmt,
                        w,
                        h,
                        i,
                        j,
                    ),
                forall|i: int|
                    0 <= i < cx ==> #[trigger] cells@[cy * 32 + i] == cell_average(
                        frame@,
                        pix_fmt,
                        w,
                        h,
                        i,
                        cy as int,
                    ),
            decreases 32 - cx,
        {
            proof {
                lemma_span_order(cx as int, w);
                assert(cell_ok(frame@, pix_fmt, w, h, cx as int, cy as int));
            }
            let x0 = cx * width / GRID;
            let next_x = (cx + 1) * width / GRID;
            let x1 = if next_x > x0 { next_x } else { x0 + 1 };
            let mut total: u32 = 0;
            let mut y = y0;
            while y < y1
                invariant
                    y0 <= y <= y1,
                    x0 < x1,
                    w == width,
                    x0 == span_start(cx as int, w),
                    x1 == span_end(cx as int, w),
                    cell_ok(frame@, pix_fmt, w, h, cx as int, cy as int),
                    y0 == span_start(cy as int, h),
                    y1 == span_end(cy as int, h),
                    total == rows_luma(frame@, pix_fmt, w, y0 as int, x0 as int, x1 as int, y - y0),
                decreases y1 - y,
            {
                proof {
                    lemma_rows_luma_grows(
                        frame@,
                        pix_fmt,
                        w,
                        y0 as int,
                        x0 as int,
                        x1 as int,
                        y + 1 - y0,
                        y1 - y0,
                    );
                    assert(run_readable(frame@.len() as int, pix_fmt, w, y as int, x0 as int, x1 as int));
                    lemma_run_luma_grows(frame@, pix_fmt, w, y as int, x0 as int, x1 - x0, x1 - x0);
                }
                let run = row_luma_sum(frame, pix_fmt, width, y, x0, x1);
                total = total + run;
                y += 1;
            }
            let count = #[verifier::truncate] (((y1 - y0) * (x1 - x0)) as u32);
            let divisor = if count >= 1 { count } else { 1 };
            let average = #[verifier::truncate] ((total / divisor) as u8);
            cells.push(average);
            proof {
                assert(cells@[cy * 32 + cx] == cell_average(frame@, pix_fmt, w, h, cx as int, cy as int));
            }
            cx += 1;
        }
        cy += 1;
    }
}


/// How far apart the first `n` samples of `a` and `b` are, totalled.
pub open spec fn diff_total(a: Seq<u8>, b: Seq<u8>, n: int) -> int
    decreases n,
{
    if n <= 0 {
        0
    } else {
        diff_total(a, b, n - 1) + gap(a[n - 1], b[n - 1])
    }
}

/// The samples two grids are compared over: those both hold.
pub open spec fn paired(a: Seq<u8>, b: Seq<u8>) -> int {
    least(a.len() as int, b.len() as int)
}

proof fn lemma_diff_total_grows(a: Seq<u8>, b: Seq<u8>, n: int, m: int)
    requires
        0 <= n <= m,
    ensures
        0 <= diff_total(a, b, n) <= diff_total(a, b, m),
    decreases m,
{
    if m > 0 {
        if n < m {
            lemma_diff_total_grows(a, b, n, m - 1);
        } else {
            lemma_diff_total_grows(a, b, n - 1, m - 1);
        }
    }
}

/// The absolute differences between two frames' cells, totalled over the
/// cells both hold: what their mean absolute difference is taken of.
pub fn abs_diff_total(a: &[u8], b: &[u8]) -> (r: u32)
    requires
        diff_total(a@, b@, paired(a@, b@)) <= u32::MAX,
    ensures
        r == diff_total(a@, b@, paired(a@, b@)),
{
    let n = if a.len() <= b.len() { a.len() } else { b.len() };
    let mut total: u32 = 0;
    let mut i: usize = 0;
    while i < n
        invariant
            i <= n,
            n == paired(a@, b@),
            diff_total(a@, b@, n as int) <= u32::MAX,
            total == diff_total(a@, b@, i as int),
        decreases n - i,
    {
        proof {
            lemma_diff_total_grows(a@, b@, i + 1, n as int);
        }
        let (p, q) = (a[i], b[i]);
        let step: u32 = if p >= q { (p - q) as u32 } else { (q - p) as u32 };
        total = total + step;
        i += 1;
    }
    total
}


/// A frame smaller than the grid still fills it: along an axis of at least
/// one pixel every span starts inside the axis, covers at least one pixel,
/// and ends by the axis' end.
pub proof fn law_every_span_covers_a_pixel_of_the_axis(i: int, extent: int)
    requires
        0 <= i < 32,
        1 <= extent,
    ensures
        0 <= span_start(i, extent) < span_end(i, extent) <= extent,
{
    lemma_span_order(i, extent);
    assert(i * extent <= 31 * extent) by (nonlinear_arith)
        requires
            0 <= i < 32,
            1 <= extent,
    ;
    lemma_div_is_ordered(i * extent, 31 * extent, 32);
    lemma_fundamental_div_mod(31 * extent, 32);
    lemma_mod_pos_bound(31 * extent, 32);
    assert(31 * extent / 32 < extent) by (nonlinear_arith)
        requires
            31 * extent == 32 * (31 * extent / 32) + (31 * extent) % 32,
            0 <= (31 * extent) % 32,
            1 <= extent,
    ;
}

/// A grey rgba pixel's luma is its own level.
pub proof fn law_grey_is_its_own_luma(v: u8)
    ensures
        luma(v, v, v) == v,
{
    assert(v * 299 + v * 587 + v * 114 == 1000 * v) by (nonlinear_arith);
    lemma_div_multiples_vanish(v as int, 1000);
}

proof fn lemma_flat_run(frame: Seq<u8>, pix_fmt: PixFmt, width: int, y: int, x0: int, n: int, v: int)
    requires
        n >= 0,
        forall|x: int| x0 <= x < x0 + n ==> #[trigger] pixel_luma(frame, pix_fmt, width, y, x) == v,
    ensures
        run_luma(frame, pix_fmt, width, y, x0, n) == n * v,
    decreases n,
{
    if n > 0 {
        lemma_flat_run(frame, pix_fmt, width, y, x0, n - 1, v);
        assert(pixel_luma(frame, pix_fmt, width, y, x0 + n - 1) == v);
        assert((n - 1) * v + v == n * v) by (nonlinear_arith);
    } else {
        assert(n * v == 0) by (nonlinear_arith)
            requires
                n == 0,
        ;
    }
}

proof fn lemma_flat_rows(
    frame: Seq<u8>,
    pix_fmt: PixFmt,
    width: int,
    y0: int,
    x0: int,
    x1: int,
    m: int,
    v: int,
)
    requires
        m >= 0,
        x0 <= x1,
        forall|y: int, x: int|
            y0 <= y < y0 + m && x0 <= x < x1 ==> #[trigger] pixel_luma(frame, pix_fmt, width, y, x) == v,
    ensures
        rows_luma(frame, pix_fmt, width, y0, x0, x1, m) == m * (x1 - x0) * v,
    decreases m,
{
    if m > 0 {
        lemma_flat_rows(frame, pix_fmt, width, y0, x0, x1, m - 1, v);
        let y = y0 + m - 1;
        assert forall|x: int| x0 <= x < x0 + (x1 - x0) implies #[trigger] pixel_luma(
            frame,
            pix_fmt,
            width,
            y,
            x,
        ) == v by {
            assert(pixel_luma(frame, pix_fmt, width, y, x) == v);
        }
        lemma_flat_run(frame, pix_fmt, width, y, x0, x1 - x0, v);
        assert((m - 1) * (x1 - x0) * v + (x1 - x0) * v == m * (x1 - x0) * v) by (nonlinear_arith);
    } else {
        assert(m * (x1 - x0) * v == 0) by (nonlinear_arith)
            requires
                m == 0,
        ;
    }
}

/// Every cell of a flat frame holds the frame's level: where every pixel a
/// cell covers has luma `v`, the cell's average is `v`.
pub proof fn law_a_flat_cell_holds_its_level(
    frame: Seq<u8>,
    pix_fmt: PixFmt,
    width: int,
    height: int,
    cx: int,
    cy: int,
    v: u8,
)
    requires
        0 <= cx < 32,
        0 <= cy < 32,
        0 <= width,
        0 <= height,
        cell_ok(frame, pix_fmt, width, height, cx, cy),
        forall|y: int, x: int|
            span_start(cy, height) <= y < span_end(cy, height) && span_start(cx, width) <= x
                < span_end(cx, width) ==> #[trigger] pixel_luma(frame, pix_fmt, width, y, x) == v,
    ensures
        cell_average(frame, pix_fmt, width, height, cx, cy) == v,
{
    lemma_span_order(cx, width);
    lemma_span_order(cy, height);
    let (y0, y1) = (span_start(cy, height), span_end(cy, height));
    let (x0, x1) = (span_start(cx, width), span_end(cx, width));
    lemma_flat_rows(frame, pix_fmt, width, y0, x0, x1, y1 - y0, v as int);
    let count = cell_count(width, height, cx, cy);
    assert(count == (y1 - y0) * (x1 - x0));
    assert(count >= 1) by (nonlinear_arith)
        requires
            count == (y1 - y0) * (x1 - x0),
            y1 - y0 >= 1,
            x1 - x0 >= 1,
    ;
    let total = cell_total(frame, pix_fmt, width, height, cx, cy);
    assert(total == count * v);
    if v == 0 {
        assert(total == 0);
        assert(count * 0 == 0) by (nonlinear_arith);
    } else {
        assert(count <= total) by (nonlinear_arith)
            requires
                total == count * v,
                v >= 1,
                count >= 1,
        ;
    }
    if v != 0 {
        assert((count as u32) as int == count);
        lemma_div_multiples_vanish(v as int, count);
        assert(count * v == v * count) by (nonlinear_arith);
    }
}

/// A grid compared with itself differs nowhere, and the difference of two
/// grids does not depend on which is taken first.
pub proof fn law_difference_is_symmetric_and_zero_on_itself(a: Seq<u8>, b: Seq<u8>, n: int)
    ensures
        diff_total(a, a, n) == 0,
        diff_total(a, b, n) == diff_total(b, a, n),
    decreases n,
{
    if n > 0 {
        law_difference_is_symmetric_and_zero_on_itself(a, b, n - 1);
    }
}


/// The bytes a `width` by `height` picture's luma reaches into: the luma
/// plane of a yuv420p frame, or every pixel of an rgba one.
pub open spec fn luma_bytes(pix_fmt: PixFmt, width: int, height: int) -> int {
    match pix_fmt {
        PixFmt::Yuv420p => width * height,
        PixFmt::Rgba => width * height * 4,
    }
}

/// The most pixels one grid cell can cover along an axis of `extent` pixels.
pub open spec fn widest_span(extent: int) -> int {
    extent / 32 + 1
}

proof fn lemma_span_width(i: int, extent: int)
    requires
        0 <= i < 32,
        0 <= extent,
    ensures
        span_end(i, extent) - span_start(i, extent) <= widest_span(extent),
{
    lemma_span_order(i, extent);
    let (a, b) = (i * extent, (i + 1) * extent);
    assert(b == a + extent) by (nonlinear_arith)
        requires
            a == i * extent,
            b == (i + 1) * extent,
    ;
    lemma_fundamental_div_mod(a, 32);
    lemma_fundamental_div_mod(b, 32);
    lemma_fundamental_div_mod(extent, 32);
    lemma_mod_pos_bound(a, 32);
    lemma_mod_pos_bound(b, 32);
    lemma_mod_pos_bound(extent, 32);
    lemma_div_pos_is_pos(extent, 32);
}

proof fn lemma_run_luma_at_most(frame: Seq<u8>, pix_fmt: PixFmt, width: int, y: int, x0: int, n: int)
    requires
        n >= 0,
    ensures
        run_luma(frame, pix_fmt, width, y, x0, n) <= 255 * n,
    decreases n,
{
    if n > 0 {
        lemma_run_luma_at_most(frame, pix_fmt, width, y, x0, n - 1);
        lemma_pixel_luma_bounded(frame, pix_fmt, width, y, x0 + n - 1);
    }
}

proof fn lemma_rows_luma_at_most(frame: Seq<u8>, pix_fmt: PixFmt, width: int, y0: int, x0: int, x1: int, m: int)
    requires
        m >= 0,
        x0 <= x1,
    ensures
        rows_luma(frame, pix_fmt, width, y0, x0, x1, m) <= 255 * (m * (x1 - x0)),
    decreases m,
{
    if m > 0 {
        lemma_rows_luma_at_most(frame, pix_fmt, width, y0, x0, x1, m - 1);
        lemma_run_luma_at_most(frame, pix_fmt, width, y0 + m - 1, x0, x1 - x0);
        assert(255 * ((m - 1) * (x1 - x0)) + 255 * (x1 - x0) == 255 * (m * (x1 - x0))) by (nonlinear_arith);
    } else {
        assert(255 * (m * (x1 - x0)) == 0) by (nonlinear_arith)
            requires
                m == 0,
        ;
    }
}

/// Any frame that holds the whole luma of a picture of at least one pixel
/// can be reduced to the grid, as long as the axes leave room for the grid's
/// arithmetic and the largest cell's total fits a `u32`.
pub proof fn law_a_whole_picture_can_be_reduced(frame: Seq<u8>, pix_fmt: PixFmt, width: int, height: int)
    requires
        1 <= width,
        1 <= height,
        32 * width <= usize::MAX,
        32 * height <= usize::MAX,
        luma_bytes(pix_fmt, width, height) <= frame.len(),
        255 * (widest_span(width) * widest_span(height)) <= u32::MAX,
    ensures
        reducible(frame, pix_fmt, width, height),
{
    assert forall|cx: int, cy: int| 0 <= cx < 32 && 0 <= cy < 32 implies #[trigger] cell_ok(
        frame,
        pix_fmt,
        width,
        height,
        cx,
        cy,
    ) by {
        law_every_span_covers_a_pixel_of_the_axis(cx, width);
        law_every_span_covers_a_pixel_of_the_axis(cy, height);
        lemma_span_width(cx, width);
        lemma_span_width(cy, height);
        let (x0, x1) = (span_start(cx, width), span_end(cx, width));
        let (y0, y1) = (span_start(cy, height), span_end(cy, height));
        let (across, down) = (x1 - x0, y1 - y0);
        let count = cell_count(width, height, cx, cy);
        assert(count == down * across);
        assert(0 <= count <= widest_span(width) * widest_span(height)) by (nonlinear_arith)
            requires
                count == down * across,
                1 <= across <= widest_span(width),
                1 <= down <= widest_span(height),
        ;
        lemma_rows_luma_at_most(frame, pix_fmt, width, y0, x0, x1, down);
        assert(255 * (down * across) <= 255 * (widest_span(width) * widest_span(height))) by (nonlinear_arith)
            requires
                down * across <= widest_span(width) * widest_span(height),
        ;
        assert forall|y: int| y0 <= y < y1 implies #[trigger] run_readable(
            frame.len() as int,
            pix_fmt,
            width,
            y,
            x0,
            x1,
        ) by {
            assert(y * width + x1 <= width * height) by (nonlinear_arith)
                requires
                    0 <= y < height,
                    0 <= x1 <= width,
            {
                assert(y * width <= (height - 1) * width);
            }
            if pix_fmt == PixFmt::Rgba {
                assert((y * width + x1) * 4 <= width * height * 4) by (nonlinear_arith)
                    requires
                        y * width + x1 <= width * height,
                ;
            }
        }
    }
}


/// The grid's spans tile an axis of at least 32 pixels: the first starts at
/// the axis' start, each ends exactly where the next starts, the last ends at
/// the axis' end, span `i` starts at the pixel where `i`/32 of the axis falls,
/// and every span is `extent / 32` or one more pixels wide. So every pixel of
/// such an axis lies in exactly one span, and every cell averages its own
/// block of pixels.
pub proof fn law_spans_tile_the_axis(i: int, extent: int)
    requires
        0 <= i < 32,
        32 <= extent,
    ensures
        span_start(0, extent) == 0,
        span_end(31, extent) == extent,
        i < 31 ==> span_end(i, extent) == span_start(i + 1, extent),
        span_start(i, extent) * 32 <= i * extent < (span_start(i, extent) + 1) * 32,
        extent / 32 <= span_end(i, extent) - span_start(i, extent) <= extent / 32 + 1,
{
    let (a, b) = (i * extent, (i + 1) * extent);
    assert(b == a + extent && a >= 0) by (nonlinear_arith)
        requires
            a == i * extent,
            b == (i + 1) * extent,
            0 <= i,
            0 <= extent,
    ;
    lemma_fundamental_div_mod(a, 32);
    lemma_fundamental_div_mod(b, 32);
    lemma_fundamental_div_mod(extent, 32);
    lemma_mod_pos_bound(a, 32);
    lemma_mod_pos_bound(b, 32);
    lemma_mod_pos_bound(extent, 32);
    assert(extent / 32 >= 1);
    assert(b / 32 >= a / 32 + extent / 32);
    assert(span_end(i, extent) == b / 32);
    lemma_span_width(i, extent);
    assert(0 * extent == 0);
    assert(span_start(0, extent) == 0);
    assert(32 * extent / 32 == extent) by {
        lemma_div_multiples_vanish(extent, 32);
    }
    let e31 = 32 * extent / 32;
    assert(31 * extent / 32 < e31) by {
        lemma_fundamental_div_mod(31 * extent, 32);
        lemma_mod_pos_bound(31 * extent, 32);
    }
    assert((31 + 1) * extent == 32 * extent);
    assert(span_end(31, extent) == extent);
    if i < 31 {
        assert(span_start(i + 1, extent) == b / 32);
    }
}

/// For an rgba frame the luma of pixel (`x`, `y`) is read from the four bytes
/// that start at `4 * (y * width + x)`, and for a yuv420p frame from byte
/// `y * width + x`: a run of `n` pixels of row `y` that are all grey level
/// `v` totals `n * v`, whatever any other byte of the frame holds.
pub proof fn law_a_grey_run_totals_its_level(
    frame: Seq<u8>,
    pix_fmt: PixFmt,
    width: int,
    y: int,
    x0: int,
    n: int,
    v: u8,
)
    requires
        0 <= n,
        pix_fmt == PixFmt::Rgba ==> forall|k: int|
            x0 <= k < x0 + n ==> #[trigger] frame[4 * (y * width + k)] == v && frame[4 * (y * width
                + k) + 1] == v && frame[4 * (y * width + k) + 2] == v,
        pix_fmt == PixFmt::Yuv420p ==> forall|k: int|
            x0 <= k < x0 + n ==> #[trigger] frame[y * width + k] == v,
    ensures
        run_luma(frame, pix_fmt, width, y, x0, n) == n * v,
{
    law_grey_is_its_own_luma(v);
    assert forall|x: int| x0 <= x < x0 + n implies #[trigger] pixel_luma(frame, pix_fmt, width, y, x)
        == v by {
        if pix_fmt == PixFmt::Rgba {
            assert((y * width + x) * 4 == 4 * (y * width + x));
            assert(frame[4 * (y * width + x)] == v);
        } else {
            assert(frame[y * width + x] == v);
        }
    }
    lemma_flat_run(frame, pix_fmt, width, y, x0, n, v as int);
}


/// One pixel's luma is read from its own bytes: byte `y * width + x` of a
/// yuv420p frame, and the red, green and blue bytes that start at
/// `4 * (y * width + x)` of an rgba frame, weighed 299, 587 and 114
/// thousandths and rounded down.
pub proof fn law_a_pixels_luma_is_read_from_its_own_bytes(frame: Seq<u8>, width: int, y: int, x: int)
    ensures
        run_luma(frame, PixFmt::Yuv420p, width, y, x, 1) == frame[y * width + x],
        run_luma(frame, PixFmt::Rgba, width, y, x, 1) == (299 * frame[4 * (y * width + x)] + 587
            * frame[4 * (y * width + x) + 1] + 114 * frame[4 * (y * width + x) + 2]) / 1000,
{
    assert(run_luma(frame, PixFmt::Yuv420p, width, y, x, 0) == 0);
    assert(run_luma(frame, PixFmt::Rgba, width, y, x, 0) == 0);
    assert((y * width + x) * 4 == 4 * (y * width + x));
}

/// A run's total is the total of any two runs it splits into.
pub proof fn law_runs_add_up(frame: Seq<u8>, pix_fmt: PixFmt, width: int, y: int, x0: int, n: int, m: int)
    requires
        0 <= n,
        0 <= m,
    ensures
        run_luma(frame, pix_fmt, width, y, x0, n + m) == run_luma(frame, pix_fmt, width, y, x0, n)
            + run_luma(frame, pix_fmt, width, y, x0 + n, m),
    decreases m,
{
    if m > 0 {
        law_runs_add_up(frame, pix_fmt, width, y, x0, n, m - 1);
        assert(x0 + n + m - 1 == x0 + (n + m) - 1);
    }
}

} // verus!
