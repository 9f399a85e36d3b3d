//! What a matte is supposed to have done to a picture, measured.
//!
//! A matte promises three things of a composition: where it is white the
//! overlay replaces the base outright, where it is black the base comes
//! through untouched, and a feathered edge ramps between the two. This module
//! is the arithmetic that checks those on real frames.
//!
//! Everything is 8-bit interleaved samples, which is what a rawvideo `rgb24`
//! frame is, and every measure is per channel: a matte converted into a
//! picture format weighs brightness and colour by different amounts, so an
//! error averaged over the channels can hide in the average.
use vstd::prelude::*;
use vstd::arithmetic::div_mod::{
    lemma_fundamental_div_mod, lemma_mod_add_multiples_vanish, lemma_mod_multiples_basic,
    lemma_mod_pos_bound, lemma_div_plus_one, lemma_basic_div_specific_divisor,
};

verus! {

/// One frame: interleaved 8-bit samples, `channels` of them per pixel.
#[derive(Clone, Debug, PartialEq, Eq)]
pub struct Frame {
    pub width: usize,
    pub height: usize,
    pub channels: usize,
    pub data: Vec<u8>,
}

proof fn lemma_zero_product(w: int, h: int, c: int)
    requires
        w == 0 || h == 0 || c == 0,
    ensures
        w * h * c == 0,
{
    assert(w * h * c == 0) by (nonlinear_arith)
        requires
            w == 0 || h == 0 || c == 0,
    ;
}

proof fn lemma_product_bounds(w: int, h: int, c: int)
    requires
        w >= 1,
        h >= 1,
        c >= 1,
    ensures
        w * h >= w,
        w * h * c >= w * h,
        w * h * c == (w * h) * c,
{
    assert(w * h >= w && (w * h) * c >= w * h) by (nonlinear_arith)
        requires
            w >= 1,
            h >= 1,
            c >= 1,
    ;
}

impl Frame {
    /// The number of bytes a frame of this shape holds.
    pub open spec fn shape_len(width: int, height: int, channels: int) -> int {
        width * height * channels
    }

    /// A frame over raw interleaved bytes, or `None` if the bytes are not
    /// exactly one frame of that shape.
    pub fn new(width: usize, height: usize, channels: usize, data: Vec<u8>) -> (r: Option<Self>)
        ensures
            r is Some <==> data@.len() == Self::shape_len(width as int, height as int, channels as int),
            r matches Some(f) ==> f.width == width && f.height == height && f.channels == channels
                && f.data@ == data@,
    {
        let len = data.len();
        let fits = if width == 0 || height == 0 || channels == 0 {
            proof { lemma_zero_product(width as int, height as int, channels as int); }
            len == 0
        } else {
            proof { lemma_product_bounds(width as int, height as int, channels as int); }
            match width.checked_mul(height) {
                Some(area) => match area.checked_mul(channels) {
                    Some(total) => total == len,
                    None => false,
                },
                None => false,
            }
        };
        if fits {
            Some(Frame { width, height, channels, data })
        } else {
            None
        }
    }

    /// Where the sample of channel `c` at pixel (`x`, `y`) sits in `data`.
    pub open spec fn offset(self, x: int, y: int, c: int) -> int {
        (y * self.width + x) * self.channels + c
    }

    /// Whether reading channel `c` at (`x`, `y`) stays inside the bytes, with
    /// no step of the index arithmetic overflowing on the way.
    pub open spec fn readable(self, x: int, y: int, c: int) -> bool {
        &&& 0 <= x
        &&& 0 <= y
        &&& 0 <= c
        &&& y * self.width + x <= usize::MAX
        &&& self.offset(x, y, c) < self.data.len()
    }

    /// The sample of channel `c` at (`x`, `y`).
    pub open spec fn sample(self, x: int, y: int, c: int) -> u8 {
        self.data@[self.offset(x, y, c)]
    }

    /// The bytes are exactly one frame of the declared shape.
    pub open spec fn has_shape(self) -> bool {
        self.data@.len() == Self::shape_len(self.width as int, self.height as int, self.channels as int)
    }

    /// The value of one channel at one pixel.
    pub fn at(&self, x: usize, y: usize, channel: usize) -> (v: u8)
        requires
            self.readable(x as int, y as int, channel as int),
        ensures
            v == self.sample(x as int, y as int, channel as int),
    {
        self.data[(y * self.width + x) * self.channels + channel]
    }

    /// Channel 0 read as a matte weight, which is what a grayscale matte
    /// carries in all of its channels.
    pub fn weight(&self, x: usize, y: usize) -> (v: u8)
        requires
            self.readable(x as int, y as int, 0),
        ensures
            v == self.sample(x as int, y as int, 0),
    {
        self.at(x, y, 0)
    }
}

/// Every pixel inside a frame that holds exactly its own bytes can be read.
pub proof fn law_a_whole_frame_reads_anywhere_inside(f: Frame, x: int, y: int, c: int)
    requires
        f.has_shape(),
        0 <= x < f.width,
        0 <= y < f.height,
        0 <= c < f.channels,
    ensures
        f.readable(x, y, c),
{
    let (w, h, ch) = (f.width as int, f.height as int, f.channels as int);
    assert(f.data@.len() == f.data.len());
    assert((y * w + x) * ch + c < w * h * ch && y * w + x < w * h) by (nonlinear_arith)
        requires
            0 <= x < w,
            0 <= y < h,
            0 <= c < ch,
    {
        assert(y * w + x <= (h - 1) * w + (w - 1));
        assert((h - 1) * w + (w - 1) == w * h - 1);
        assert((y * w + x) * ch <= (w * h - 1) * ch);
    }
    assert(w * h * ch == (w * h) * ch) by (nonlinear_arith);
    assert(w * h <= w * h * ch) by (nonlinear_arith)
        requires
            ch >= 1,
            w * h >= 0,
    ;
}


/// A rectangle of pixels, in the half-open convention `x0..x1`, `y0..y1`.
#[derive(Clone, Copy, Debug, PartialEq, Eq)]
pub struct Rect {
    pub x0: usize,
    pub y0: usize,
    pub x1: usize,
    pub y1: usize,
}

/// `a - b`, or nothing when `b` is the larger.
pub open spec fn floor_sub(a: int, b: int) -> int {
    if a >= b {
        a - b
    } else {
        0
    }
}

/// The smaller of two.
pub open spec fn least(a: int, b: int) -> int {
    if a <= b {
        a
    } else {
        b
    }
}

impl Rect {
    /// The pixels the rectangle holds.
    pub open spec fn spec_contains(self, x: int, y: int) -> bool {
        self.x0 <= x < self.x1 && self.y0 <= y < self.y1
    }

    /// The rectangle pulled `n` pixels in on every side.
    pub open spec fn spec_inset(self, n: int) -> Rect {
        Rect {
            x0: (self.x0 + n) as usize,
            y0: (self.y0 + n) as usize,
            x1: floor_sub(self.x1 as int, n) as usize,
            y1: floor_sub(self.y1 as int, n) as usize,
        }
    }

    /// The rectangle pushed `n` pixels out on every side, clamped to a frame
    /// of `width` by `height`.
    pub open spec fn spec_outset(self, n: int, width: int, height: int) -> Rect {
        Rect {
            x0: floor_sub(self.x0 as int, n) as usize,
            y0: floor_sub(self.y0 as int, n) as usize,
            x1: least(self.x1 + n, width) as usize,
            y1: least(self.y1 + n, height) as usize,
        }
    }

    /// The same rectangle pulled `n` pixels in on every side.
    ///
    /// Every measure of an interior takes this first. A matte edge is where a
    /// 4:2:0 chroma cell straddles the boundary and carries some of both
    /// sides, which is the wire's doing and not the composition's; two pixels
    /// in is past it.
    pub fn inset(self, n: usize) -> (r: Self)
        requires
            self.x0 + n <= usize::MAX,
            self.y0 + n <= usize::MAX,
        ensures
            r == self.spec_inset(n as int),
    {
        Rect {
            x0: self.x0 + n,
            y0: self.y0 + n,
            x1: self.x1.saturating_sub(n),
            y1: self.y1.saturating_sub(n),
        }
    }

    /// The same rectangle pushed `n` pixels out on every side, clamped to a
    /// frame of `width` by `height`.
    pub fn outset(self, n: usize, width: usize, height: usize) -> (r: Self)
        requires
            self.x1 + n <= usize::MAX,
            self.y1 + n <= usize::MAX,
        ensures
            r == self.spec_outset(n as int, width as int, height as int),
    {
        let x1 = self.x1 + n;
        let y1 = self.y1 + n;
        Rect {
            x0: self.x0.saturating_sub(n),
            y0: self.y0.saturating_sub(n),
            x1: if x1 <= width { x1 } else { width },
            y1: if y1 <= height { y1 } else { height },
        }
    }

    /// Whether the pixel (`x`, `y`) lies inside.
    pub fn contains(self, x: usize, y: usize) -> (r: bool)
        ensures
            r == self.spec_contains(x as int, y as int),
    {
        self.x0 <= x && x < self.x1 && self.y0 <= y && y < self.y1
    }
}

/// Pulled in, a rectangle keeps only pixels it held, each at least `n` in
/// from every one of its edges.
pub proof fn law_inset_keeps_the_interior(r: Rect, n: int, x: int, y: int)
    requires
        0 <= n,
        r.x0 + n <= usize::MAX,
        r.y0 + n <= usize::MAX,
        r.spec_inset(n).spec_contains(x, y),
    ensures
        r.spec_contains(x, y),
        r.x0 + n <= x && x + n < r.x1,
        r.y0 + n <= y && y + n < r.y1,
{
}

/// Pushed out and clamped, a rectangle stays inside the frame and still holds
/// every pixel of the frame it held before.
pub proof fn law_outset_stays_inside_the_frame(
    r: Rect,
    n: int,
    width: int,
    height: int,
    x: int,
    y: int,
)
    requires
        0 <= n,
        0 <= width <= usize::MAX,
        0 <= height <= usize::MAX,
        r.x1 + n <= usize::MAX,
        r.y1 + n <= usize::MAX,
    ensures
        r.spec_outset(n, width, height).spec_contains(x, y) ==> x < width && y < height,
        r.spec_contains(x, y) && x < width && y < height ==> r.spec_outset(
            n,
            width,
            height,
        ).spec_contains(x, y),
{
}

/// One pixel that came out wrong, for a message that says where and by how
/// much rather than just that something did.
#[derive(Clone, Copy, Debug, PartialEq, Eq)]
pub struct Mismatch {
    pub x: usize,
    pub y: usize,
    pub channel: usize,
    pub got: u8,
    pub want: u8,
}

/// How far apart two samples are.
pub open spec fn gap(a: u8, b: u8) -> int {
    if a >= b {
        a - b
    } else {
        b - a
    }
}

impl Mismatch {
    /// How far the pixel came out from what it should have been.
    pub open spec fn size(self) -> int {
        gap(self.got, self.want)
    }
}

/// The channels two frames are compared over: the ones both carry.
pub open spec fn shared_channels(got: Frame, want: Frame) -> int {
    least(got.channels as int, want.channels as int)
}

/// The mismatch at channel `c` of pixel (`x`, `y`), if the two frames are more
/// than `tolerance` apart there.
pub open spec fn mismatch_at(got: Frame, want: Frame, x: int, y: int, c: int, tolerance: u8) -> Seq<
    Mismatch,
> {
    let (g, w) = (got.sample(x, y, c), want.sample(x, y, c));
    if gap(g, w) > tolerance {
        seq![Mismatch { x: x as usize, y: y as usize, channel: c as usize, got: g, want: w }]
    } else {
        seq![]
    }
}

/// The mismatches at pixel (`x`, `y`) among its first `n` channels.
pub open spec fn pixel_found(got: Frame, want: Frame, x: int, y: int, n: int, tolerance: u8) -> Seq<
    Mismatch,
>
    decreases n,
{
    if n <= 0 {
        seq![]
    } else {
        pixel_found(got, want, x, y, n - 1, tolerance) + mismatch_at(got, want, x, y, n - 1, tolerance)
    }
}

/// The mismatches in row `y` of `region`, left of `x_end`, in scan order.
pub open spec fn row_found(got: Frame, want: Frame, region: Rect, y: int, x_end: int, tolerance: u8) -> Seq<
    Mismatch,
>
    decreases x_end - region.x0,
{
    if x_end <= region.x0 {
        seq![]
    } else {
        row_found(got, want, region, y, x_end - 1, tolerance) + pixel_found(
            got,
            want,
            x_end - 1,
            y,
            shared_channels(got, want),
            tolerance,
        )
    }
}

/// The mismatches in the rows of `region` above `y_end`, in scan order.
pub open spec fn rows_found(got: Frame, want: Frame, region: Rect, y_end: int, tolerance: u8) -> Seq<
    Mismatch,
>
    decreases y_end - region.y0,
{
    if y_end <= region.y0 {
        seq![]
    } else {
        rows_found(got, want, region, y_end - 1, tolerance) + row_found(
            got,
            want,
            region,
            y_end - 1,
            region.x1 as int,
            tolerance,
        )
    }
}

/// Every mismatch inside `region`, row by row, pixel by pixel, channel by
/// channel.
pub open spec fn found(got: Frame, want: Frame, region: Rect, tolerance: u8) -> Seq<Mismatch> {
    rows_found(got, want, region, region.y1 as int, tolerance)
}

/// The mismatches of `s` whose size is `d`, in their order in `s`.
pub open spec fn of_size(s: Seq<Mismatch>, d: int) -> Seq<Mismatch>
    decreases s.len(),
{
    if s.len() == 0 {
        seq![]
    } else {
        of_size(s.drop_last(), d) + if s.last().size() == d {
            seq![s.last()]
        } else {
            seq![]
        }
    }
}

/// The mismatches of `s` of size `d` or more, largest size first and, within
/// one size, in their order in `s`.
pub open spec fn ranked_from(s: Seq<Mismatch>, d: int) -> Seq<Mismatch>
    decreases 256 - d,
{
    if d > 255 {
        seq![]
    } else {
        ranked_from(s, d + 1) + of_size(s, d)
    }
}

/// `s` stably ordered worst first.
pub open spec fn worst_first(s: Seq<Mismatch>) -> Seq<Mismatch> {
    ranked_from(s, 0)
}

/// Every sample the comparison of `region` reads can be read from both frames.
pub open spec fn comparable(got: Frame, want: Frame, region: Rect) -> bool {
    forall|x: int, y: int, c: int|
        #![trigger got.readable(x, y, c)]
        #![trigger want.readable(x, y, c)]
        region.x0 <= x < region.x1 && region.y0 <= y < region.y1 && 0 <= c < shared_channels(
            got,
            want,
        ) ==> got.readable(x, y, c) && want.readable(x, y, c)
}

/// `s` with the mismatches of size `d` appended, in their order.
fn append_of_size(out: &mut Vec<Mismatch>, s: &Vec<Mismatch>, d: u8)
    ensures
        final(out)@ == old(out)@ + of_size(s@, d as int),
{
    let ghost start = out@;
    let mut i: usize = 0;
    while i < s.len()
        invariant
            i <= s.len(),
            out@ == start + of_size(s@.take(i as int), d as int),
        decreases s.len() - i,
    {
        let m = s[i];
        proof {
            assert(s@.take(i + 1).drop_last() =~= s@.take(i as int));
            assert(s@.take(i + 1).last() == m);
        }
        let size = if m.got >= m.want { m.got - m.want } else { m.want - m.got };
        if size == d {
            out.push(m);
        }
        proof {
            assert(out@ =~= start + of_size(s@.take(i + 1), d as int));
        }
        i += 1;
    }
    proof {
        assert(s@.take(s@.len() as int) =~= s@);
    }
}

/// Where `got` and `want` differ inside `region`, worst pixel first.
///
/// `tolerance` is the number of code values a difference is allowed to be, so
/// `0` asks for the bit-identical frame a fully-marked region owes.
pub fn differences(got: &Frame, want: &Frame, region: Rect, tolerance: u8) -> (r: Vec<Mismatch>)
    requires
        comparable(*got, *want, region),
    ensures
        r@ == worst_first(found(*got, *want, region, tolerance)),
{
    let shared = if got.channels <= want.channels { got.channels } else { want.channels };
    let mut scanned: Vec<Mismatch> = Vec::new();
    let mut y = region.y0;
    while y < region.y1
        invariant
            y == region.y0 || region.y0 < y <= region.y1,
            shared == shared_channels(*got, *want),
            comparable(*got, *want, region),
            scanned@ == rows_found(*got, *want, region, y as int, tolerance),
        decreases region.y1 - y,
    {
        let mut x = region.x0;
        while x < region.x1
            invariant
                region.y0 <= y < region.y1,
                x == region.x0 || region.x0 < x <= region.x1,
                shared == shared_channels(*got, *want),
                comparable(*got, *want, region),
                scanned@ == rows_found(*got, *want, region, y as int, tolerance) + row_found(
                    *got,
                    *want,
                    region,
                    y as int,
                    x as int,
                    tolerance,
                ),
            decreases region.x1 - x,
        {
            let ghost row_start = rows_found(*got, *want, region, y as int, tolerance) + row_found(
                *got,
                *want,
                region,
                y as int,
                x as int,
                tolerance,
            );
            let mut c: usize = 0;
            while c < shared
                invariant
                    region.y0 <= y < region.y1,
                    region.x0 <= x < region.x1,
                    c <= shared,
                    shared == shared_channels(*got, *want),
                    comparable(*got, *want, region),
                    scanned@ == row_start + pixel_found(
                        *got,
                        *want,
                        x as int,
                        y as int,
                        c as int,
                        tolerance,
                    ),
                decreases shared - c,
            {
                let g = got.at(x, y, c);
                let w = want.at(x, y, c);
                let size = if g >= w { g - w } else { w - g };
                if size > tolerance {
                    scanned.push(Mismatch { x, y, channel: c, got: g, want: w });
                }
                proof {
                    assert(scanned@ =~= row_start + pixel_found(
                        *got,
                        *want,
                        x as int,
                        y as int,
                        c + 1,
                        tolerance,
                    ));
                }
                c += 1;
            }
            proof {
                assert(scanned@ =~= rows_found(*got, *want, region, y as int, tolerance) + row_found(
                    *got,
                    *want,
                    region,
                    y as int,
                    x + 1,
                    tolerance,
                ));
            }
            x += 1;
        }
        proof {
            if region.x0 < region.x1 {
                assert(x == region.x1);
            } else {
                assert(row_found(*got, *want, region, y as int, x as int, tolerance) =~= seq![]);
                assert(row_found(*got, *want, region, y as int, region.x1 as int, tolerance) =~= seq![]);
            }
            assert(scanned@ =~= rows_found(*got, *want, region, y + 1, tolerance));
        }
        y += 1;
    }
    proof {
        if region.y0 >= region.y1 {
            assert(rows_found(*got, *want, region, region.y1 as int, tolerance) =~= seq![]);
        }
        assert(scanned@ == found(*got, *want, region, tolerance));
    }
    let mut out: Vec<Mismatch> = Vec::new();
    let mut d: u16 = 256;
    while d > 0
        invariant
            d <= 256,
            out@ == ranked_from(scanned@, d as int),
        decreases d,
    {
        d -= 1;
        append_of_size(&mut out, &scanned, d as u8);
    }
    out
}


/// `v` lies on the grid of `block`-sized cells.
pub open spec fn on_grid(v: int, block: int) -> bool {
    v % block == 0
}

/// The first grid line at or after `v`.
pub open spec fn first_on_grid(v: int, block: int) -> int {
    if v % block == 0 {
        v
    } else {
        v + (block - v % block)
    }
}

/// Walking the grid lines from the first at or after `start` while a whole
/// cell still ends by `end`, no grid line probed has a cell end past
/// `usize::MAX`.
pub open spec fn probes_fit(start: int, end: int, block: int) -> bool {
    forall|v: int|
        #[trigger] on_grid(v, block) && start <= v && (v <= end || v < start + block) ==> v + block
            <= usize::MAX
}

/// The brightest sample of channel `c` among the first `n` pixels of row `y`
/// from `x`, starting from 0.
pub open spec fn row_high(f: Frame, x: int, y: int, c: int, n: int) -> int
    decreases n,
{
    if n <= 0 {
        0
    } else {
        let v = f.sample(x + n - 1, y, c) as int;
        let h = row_high(f, x, y, c, n - 1);
        if v > h {
            v
        } else {
            h
        }
    }
}

/// The darkest sample of channel `c` among the first `n` pixels of row `y`
/// from `x`, starting from 255.
pub open spec fn row_low(f: Frame, x: int, y: int, c: int, n: int) -> int
    decreases n,
{
    if n <= 0 {
        255
    } else {
        let v = f.sample(x + n - 1, y, c) as int;
        let l = row_low(f, x, y, c, n - 1);
        if v < l {
            v
        } else {
            l
        }
    }
}

/// The brightest sample of channel `c` in the first `m` rows of the
/// `block`-wide cell at (`x`, `y`).
pub open spec fn cell_high(f: Frame, x: int, y: int, c: int, block: int, m: int) -> int
    decreases m,
{
    if m <= 0 {
        0
    } else {
        let r = row_high(f, x, y + m - 1, c, block);
        let h = cell_high(f, x, y, c, block, m - 1);
        if r > h {
            r
        } else {
            h
        }
    }
}

/// The darkest sample of channel `c` in the first `m` rows of the
/// `block`-wide cell at (`x`, `y`).
pub open spec fn cell_low(f: Frame, x: int, y: int, c: int, block: int, m: int) -> int
    decreases m,
{
    if m <= 0 {
        255
    } else {
        let r = row_low(f, x, y + m - 1, c, block);
        let l = cell_low(f, x, y, c, block, m - 1);
        if r < l {
            r
        } else {
            l
        }
    }
}

/// How far apart the brightest and darkest samples of channel `c` are in the
/// `block`-sized cell at (`x`, `y`).
pub open spec fn spread(f: Frame, x: int, y: int, c: int, block: int) -> int {
    cell_high(f, x, y, c, block, block) - cell_low(f, x, y, c, block, block)
}

/// The spreads of the first `n` channels of the cell at (`x`, `y`).
pub open spec fn cell_spreads(f: Frame, x: int, y: int, block: int, n: int) -> Seq<u8>
    decreases n,
{
    if n <= 0 {
        seq![]
    } else {
        cell_spreads(f, x, y, block, n - 1).push(spread(f, x, y, n - 1, block) as u8)
    }
}

/// The spreads of the whole cells of the row of cells at `y`, from the one at
/// `x` on.
pub open spec fn row_spreads(f: Frame, region: Rect, block: int, y: int, x: int) -> Seq<u8>
    decreases region.x1 - x,
{
    if block <= 0 || x + block > region.x1 {
        seq![]
    } else {
        cell_spreads(f, x, y, block, f.channels as int) + row_spreads(f, region, block, y, x + block)
    }
}

/// The spreads of the rows of whole cells from the one at `y` on.
pub open spec fn rows_spreads(f: Frame, region: Rect, block: int, y: int) -> Seq<u8>
    decreases region.y1 - y,
{
    if block <= 0 || y + block > region.y1 {
        seq![]
    } else {
        row_spreads(f, region, block, y, first_on_grid(region.x0 as int, block)) + rows_spreads(
            f,
            region,
            block,
            y + block,
        )
    }
}

/// The per-channel spread of every whole cell of the `block` grid inside
/// `region`: rows of cells top to bottom, cells left to right, channels in
/// order.
pub open spec fn spreads(f: Frame, region: Rect, block: int) -> Seq<u8> {
    rows_spreads(f, region, block, first_on_grid(region.y0 as int, block))
}

/// Every sample of the `block`-sized cell at (`x`, `y`) can be read.
pub open spec fn cell_readable(f: Frame, x: int, y: int, block: int) -> bool {
    forall|dx: int, dy: int, c: int|
        0 <= dx < block && 0 <= dy < block && 0 <= c < f.channels ==> #[trigger] f.readable(
            x + dx,
            y + dy,
            c,
        )
}

/// Every whole cell of the grid inside `region` can be read, and walking the
/// grid overflows nothing.
pub open spec fn measurable(f: Frame, region: Rect, block: int) -> bool {
    &&& block > 0
    &&& probes_fit(region.x0 as int, region.x1 as int, block)
    &&& probes_fit(region.y0 as int, region.y1 as int, block)
    &&& forall|x: int, y: int|
        #![trigger on_grid(x, block), on_grid(y, block)]
        on_grid(x, block) && region.x0 <= x && x + block <= region.x1 && on_grid(y, block)
            && region.y0 <= y && y + block <= region.y1 ==> cell_readable(f, x, y, block)
}

proof fn lemma_first_on_grid(v: int, block: int)
    requires
        0 <= v,
        block > 0,
    ensures
        on_grid(first_on_grid(v, block), block),
        v <= first_on_grid(v, block) < v + block,
{
    lemma_mod_pos_bound(v, block);
    if v % block != 0 {
        lemma_fundamental_div_mod(v, block);
        let q = v / block;
        assert(first_on_grid(v, block) == (q + 1) * block) by (nonlinear_arith)
            requires
                v == block * q + v % block,
                first_on_grid(v, block) == v + (block - v % block),
        ;
        lemma_mod_multiples_basic(q + 1, block);
    }
}

proof fn lemma_next_on_grid(v: int, block: int)
    requires
        block > 0,
        on_grid(v, block),
    ensures
        on_grid(v + block, block),
{
    lemma_mod_add_multiples_vanish(v, block);
}

proof fn lemma_row_bounds(f: Frame, x: int, y: int, c: int, n: int)
    requires
        n >= 1,
    ensures
        row_high(f, x, y, c, n) >= f.sample(x, y, c),
        row_low(f, x, y, c, n) <= f.sample(x, y, c),
        0 <= row_high(f, x, y, c, n) <= 255,
        0 <= row_low(f, x, y, c, n) <= 255,
    decreases n,
{
    if n > 1 {
        lemma_row_bounds(f, x, y, c, n - 1);
    } else {
        assert(row_high(f, x, y, c, 0) == 0);
        assert(row_low(f, x, y, c, 0) == 255);
    }
}

proof fn lemma_cell_bounds(f: Frame, x: int, y: int, c: int, block: int, m: int)
    requires
        m >= 1,
        block >= 1,
    ensures
        cell_high(f, x, y, c, block, m) >= f.sample(x, y, c),
        cell_low(f, x, y, c, block, m) <= f.sample(x, y, c),
        0 <= cell_high(f, x, y, c, block, m) <= 255,
        0 <= cell_low(f, x, y, c, block, m) <= 255,
    decreases m,
{
    lemma_row_bounds(f, x, y + m - 1, c, block);
    if m > 1 {
        lemma_cell_bounds(f, x, y, c, block, m - 1);
    } else {
        lemma_row_bounds(f, x, y, c, block);
        assert(cell_high(f, x, y, c, block, 0) == 0);
        assert(cell_low(f, x, y, c, block, 0) == 255);
    }
}

/// The spread of channel `c` in the cell at (`x`, `y`), read off the frame.
fn cell_spread(frame: &Frame, x: usize, y: usize, c: usize, block: usize) -> (r: u8)
    requires
        block >= 1,
        x + block <= usize::MAX,
        y + block <= usize::MAX,
        c < frame.channels,
        cell_readable(*frame, x as int, y as int, block as int),
    ensures
        r == spread(*frame, x as int, y as int, c as int, block as int),
{
    let (mut lo, mut hi) = (u8::MAX, u8::MIN);
    let mut dy: usize = 0;
    while dy < block
        invariant
            dy <= block,
            x + block <= usize::MAX,
            y + block <= usize::MAX,
            c < frame.channels,
            cell_readable(*frame, x as int, y as int, block as int),
            hi == cell_high(*frame, x as int, y as int, c as int, block as int, dy as int),
            lo == cell_low(*frame, x as int, y as int, c as int, block as int, dy as int),
        decreases block - dy,
    {
        let ghost hi_before = hi as int;
        let ghost lo_before = lo as int;
        let mut dx: usize = 0;
        while dx < block
            invariant
                dx <= block,
                dy < block,
                x + block <= usize::MAX,
                y + block <= usize::MAX,
                c < frame.channels,
                cell_readable(*frame, x as int, y as int, block as int),
                hi == (if row_high(*frame, x as int, y + dy, c as int, dx as int) > hi_before {
                    row_high(*frame, x as int, y + dy, c as int, dx as int)
                } else {
                    hi_before
                }),
                lo == (if row_low(*frame, x as int, y + dy, c as int, dx as int) < lo_before {
                    row_low(*frame, x as int, y + dy, c as int, dx as int)
                } else {
                    lo_before
                }),
            decreases block - dx,
        {
            let v = frame.at(x + dx, y + dy, c);
            if v < lo {
                lo = v;
            }
            if v > hi {
                hi = v;
            }
            dx += 1;
        }
        dy += 1;
    }
    proof {
        lemma_cell_bounds(*frame, x as int, y as int, c as int, block as int, block as int);
    }
    hi - lo
}

/// The per-channel spread inside every whole `block`-sized block of `region`.
///
/// An overlay a mosaic made flat has to come out flat: a block whose spread is
/// not zero is one where something else - the base picture, weighed in by a
/// matte that did not mean 255 - is still showing through.
pub fn block_spreads(frame: &Frame, region: Rect, block: usize) -> (r: Vec<u8>)
    requires
        measurable(*frame, region, block as int),
    ensures
        r@ == spreads(*frame, region, block as int),
{
    let ghost b = block as int;
    proof {
        lemma_first_on_grid(region.x0 as int, b);
        lemma_first_on_grid(region.y0 as int, b);
    }
    let rx = region.x0 % block;
    let x_start = if rx == 0 { region.x0 } else { region.x0 + (block - rx) };
    let ry = region.y0 % block;
    let mut y = if ry == 0 { region.y0 } else { region.y0 + (block - ry) };
    let mut out: Vec<u8> = Vec::new();
    while y + block <= region.y1
        invariant
            measurable(*frame, region, b),
            b == block,
            x_start == first_on_grid(region.x0 as int, b),
            on_grid(y as int, b),
            region.y0 <= y,
            y as int == first_on_grid(region.y0 as int, b) || y <= region.y1,
            y < region.y0 + b || y <= region.y1,
            out@ + rows_spreads(*frame, region, b, y as int) == spreads(*frame, region, b),
        decreases region.y1 - y,
    {
        let ghost row_start = out@;
        let mut x = x_start;
        proof {
            lemma_first_on_grid(region.x0 as int, b);
        }
        while x + block <= region.x1
            invariant
                measurable(*frame, region, b),
                b == block,
                on_grid(y as int, b),
                region.y0 <= y,
                y + block <= region.y1,
                on_grid(x as int, b),
                region.x0 <= x,
                x < region.x0 + b || x <= region.x1,
                out@ + row_spreads(*frame, region, b, y as int, x as int) == row_start
                    + row_spreads(*frame, region, b, y as int, first_on_grid(region.x0 as int, b)),
            decreases region.x1 - x,
        {
            let ghost cell_start = out@;
            let mut c: usize = 0;
            while c < frame.channels
                invariant
                    c <= frame.channels,
                    b == block,
                    block >= 1,
                    x + block <= region.x1,
                    y + block <= region.y1,
                    cell_readable(*frame, x as int, y as int, b),
                    out@ == cell_start + cell_spreads(*frame, x as int, y as int, b, c as int),
                decreases frame.channels - c,
            {
                let v = cell_spread(frame, x, y, c, block);
                out.push(v);
                proof {
                    assert(out@ =~= cell_start + cell_spreads(*frame, x as int, y as int, b, c + 1));
                }
                c += 1;
            }
            proof {
                assert(out@ + row_spreads(*frame, region, b, y as int, x + b) =~= cell_start
                    + row_spreads(*frame, region, b, y as int, x as int));
                lemma_next_on_grid(x as int, b);
            }
            x += block;
        }
        proof {
            assert(out@ + rows_spreads(*frame, region, b, y + b) =~= row_start + rows_spreads(
                *frame,
                region,
                b,
                y as int,
            ));
            lemma_next_on_grid(y as int, b);
        }
        y += block;
    }
    proof {
        assert(out@ =~= out@ + rows_spreads(*frame, region, b, y as int));
    }
    out
}


/// `m` is a pixel of `region` whose channel `m.channel`, one both frames
/// carry, came out more than `tolerance` from what it should have been, with
/// both samples as the frames hold them.
pub open spec fn is_mismatch(got: Frame, want: Frame, region: Rect, tolerance: u8, m: Mismatch) -> bool {
    &&& region.spec_contains(m.x as int, m.y as int)
    &&& m.channel < shared_channels(got, want)
    &&& m.got == got.sample(m.x as int, m.y as int, m.channel as int)
    &&& m.want == want.sample(m.x as int, m.y as int, m.channel as int)
    &&& m.size() > tolerance
}

proof fn lemma_contains_concat<A>(a: Seq<A>, b: Seq<A>, v: A)
    ensures
        (a + b).contains(v) <==> a.contains(v) || b.contains(v),
{
    if (a + b).contains(v) {
        let i = choose|i: int| 0 <= i < (a + b).len() && (a + b)[i] == v;
        if i < a.len() {
            assert(a[i] == v);
        } else {
            assert(b[i - a.len()] == v);
        }
    }
    if a.contains(v) {
        let i = choose|i: int| 0 <= i < a.len() && a[i] == v;
        assert((a + b)[i] == v);
    }
    if b.contains(v) {
        let i = choose|i: int| 0 <= i < b.len() && b[i] == v;
        assert((a + b)[a.len() + i] == v);
    }
}

proof fn lemma_pixel_found(got: Frame, want: Frame, x: int, y: int, n: int, tolerance: u8, m: Mismatch)
    requires
        0 <= x <= usize::MAX,
        0 <= y <= usize::MAX,
        n <= usize::MAX,
    ensures
        pixel_found(got, want, x, y, n, tolerance).contains(m) <==> {
            &&& m.x == x
            &&& m.y == y
            &&& m.channel < n
            &&& m.got == got.sample(x, y, m.channel as int)
            &&& m.want == want.sample(x, y, m.channel as int)
            &&& m.size() > tolerance
        },
    decreases n,
{
    if n > 0 {
        lemma_pixel_found(got, want, x, y, n - 1, tolerance, m);
        let here = mismatch_at(got, want, x, y, n - 1, tolerance);
        lemma_contains_concat(pixel_found(got, want, x, y, n - 1, tolerance), here, m);
        if here.len() > 0 {
            if here.contains(m) {
                assert(here[0] == m);
            }
            if m.channel == n - 1 && m.x == x && m.y == y && m.got == got.sample(x, y, m.channel as int)
                && m.want == want.sample(x, y, m.channel as int) {
                assert(here[0] == m);
            }
        }
    }
}

proof fn lemma_row_found(got: Frame, want: Frame, region: Rect, y: int, x_end: int, tolerance: u8, m: Mismatch)
    requires
        0 <= y <= usize::MAX,
        x_end <= usize::MAX,
    ensures
        row_found(got, want, region, y, x_end, tolerance).contains(m) <==> {
            &&& m.y == y
            &&& region.x0 <= m.x < x_end
            &&& m.channel < shared_channels(got, want)
            &&& m.got == got.sample(m.x as int, y, m.channel as int)
            &&& m.want == want.sample(m.x as int, y, m.channel as int)
            &&& m.size() > tolerance
        },
    decreases x_end - region.x0,
{
    if x_end > region.x0 {
        lemma_row_found(got, want, region, y, x_end - 1, tolerance, m);
        lemma_pixel_found(got, want, x_end - 1, y, shared_channels(got, want), tolerance, m);
        lemma_contains_concat(
            row_found(got, want, region, y, x_end - 1, tolerance),
            pixel_found(got, want, x_end - 1, y, shared_channels(got, want), tolerance),
            m,
        );
    }
}

proof fn lemma_rows_found(got: Frame, want: Frame, region: Rect, y_end: int, tolerance: u8, m: Mismatch)
    requires
        y_end <= usize::MAX,
    ensures
        rows_found(got, want, region, y_end, tolerance).contains(m) <==> {
            &&& region.y0 <= m.y < y_end
            &&& region.x0 <= m.x < region.x1
            &&& m.channel < shared_channels(got, want)
            &&& m.got == got.sample(m.x as int, m.y as int, m.channel as int)
            &&& m.want == want.sample(m.x as int, m.y as int, m.channel as int)
            &&& m.size() > tolerance
        },
    decreases y_end - region.y0,
{
    if y_end > region.y0 {
        lemma_rows_found(got, want, region, y_end - 1, tolerance, m);
        lemma_row_found(got, want, region, y_end - 1, region.x1 as int, tolerance, m);
        lemma_contains_concat(
            rows_found(got, want, region, y_end - 1, tolerance),
            row_found(got, want, region, y_end - 1, region.x1 as int, tolerance),
            m,
        );
    }
}

proof fn lemma_of_size(s: Seq<Mismatch>, d: int, m: Mismatch)
    ensures
        of_size(s, d).contains(m) <==> s.contains(m) && m.size() == d,
        forall|i: int| 0 <= i < of_size(s, d).len() ==> (#[trigger] of_size(s, d)[i]).size() == d,
    decreases s.len(),
{
    if s.len() > 0 {
        let rest = s.drop_last();
        lemma_of_size(rest, d, m);
        let tail = if s.last().size() == d {
            seq![s.last()]
        } else {
            seq![]
        };
        lemma_contains_concat(of_size(rest, d), tail, m);
        assert(s =~= rest.push(s.last()));
        lemma_contains_concat(rest, seq![s.last()], m);
        assert(rest + seq![s.last()] =~= s);
        if tail.contains(m) {
            assert(tail[0] == m);
        }
        if m == s.last() && m.size() == d {
            assert(tail[0] == m);
        }
        assert forall|i: int| 0 <= i < of_size(s, d).len() implies (#[trigger] of_size(s, d)[i]).size() == d by {
            if i < of_size(rest, d).len() {
                assert(of_size(s, d)[i] == of_size(rest, d)[i]);
            } else {
                assert(of_size(s, d)[i] == tail[i - of_size(rest, d).len()]);
            }
        }
    }
}

proof fn lemma_ranked_from(s: Seq<Mismatch>, d: int, m: Mismatch)
    requires
        0 <= d <= 256,
        forall|i: int| 0 <= i < s.len() ==> (#[trigger] s[i]).size() <= 255,
    ensures
        ranked_from(s, d).contains(m) <==> s.contains(m) && m.size() >= d,
        forall|i: int| 0 <= i < ranked_from(s, d).len() ==> (#[trigger] ranked_from(s, d)[i]).size() >= d,
        forall|i: int, j: int|
            0 <= i < j < ranked_from(s, d).len() ==> (#[trigger] ranked_from(s, d)[i]).size() >= (
            #[trigger] ranked_from(s, d)[j]).size(),
    decreases 256 - d,
{
    if d <= 255 {
        lemma_ranked_from(s, d + 1, m);
        lemma_of_size(s, d, m);
        let (upper, here) = (ranked_from(s, d + 1), of_size(s, d));
        lemma_contains_concat(upper, here, m);
        let r = ranked_from(s, d);
        assert(r == upper + here);
        if s.contains(m) {
            let k = choose|k: int| 0 <= k < s.len() && s[k] == m;
            assert(s[k].size() <= 255);
        }
        assert forall|i: int| 0 <= i < r.len() implies (#[trigger] r[i]).size() >= d by {
            if i >= upper.len() {
                assert(r[i] == here[i - upper.len()]);
            } else {
                assert(r[i] == upper[i]);
            }
        }
        assert forall|i: int, j: int| 0 <= i < j < r.len() implies (#[trigger] r[i]).size() >= (
        #[trigger] r[j]).size() by {
            if j < upper.len() {
                assert(r[i] == upper[i] && r[j] == upper[j]);
            } else if i >= upper.len() {
                assert(r[i] == here[i - upper.len()] && r[j] == here[j - upper.len()]);
            } else {
                assert(r[i] == upper[i] && r[j] == here[j - upper.len()]);
            }
        }
    } else {
        assert(ranked_from(s, d) =~= Seq::<Mismatch>::empty());
        if s.contains(m) {
            let k = choose|k: int| 0 <= k < s.len() && s[k] == m;
            assert(s[k].size() <= 255);
        }
    }
}

/// What `differences` answers is exactly the mismatches inside the region,
/// worst first: every pixel channel more than `tolerance` out is reported,
/// nothing else is, no report is smaller than one after it, and the answer is
/// empty exactly when every channel of the region is within `tolerance`
/// (with `0`, when the region is bit-identical).
pub proof fn law_differences_are_the_mismatches_worst_first(
    got: Frame,
    want: Frame,
    region: Rect,
    tolerance: u8,
)
    ensures
        forall|m: Mismatch|
            worst_first(found(got, want, region, tolerance)).contains(m) <==> is_mismatch(
                got,
                want,
                region,
                tolerance,
                m,
            ),
        forall|i: int, j: int|
            0 <= i < j < worst_first(found(got, want, region, tolerance)).len() ==> (
            #[trigger] worst_first(found(got, want, region, tolerance))[i]).size() >= (
            #[trigger] worst_first(found(got, want, region, tolerance))[j]).size(),
        worst_first(found(got, want, region, tolerance)).len() == 0 <==> forall|x: int, y: int, c: int|
            region.spec_contains(x, y) && 0 <= c < shared_channels(got, want) ==> gap(
                #[trigger] got.sample(x, y, c),
                #[trigger] want.sample(x, y, c),
            ) <= tolerance,
{
    let s = found(got, want, region, tolerance);
    let r = worst_first(s);
    assert forall|i: int| 0 <= i < s.len() implies (#[trigger] s[i]).size() <= 255 by {
        let m = s[i];
        assert(gap(m.got, m.want) <= 255);
    }
    assert forall|m: Mismatch| r.contains(m) <==> is_mismatch(got, want, region, tolerance, m) by {
        lemma_ranked_from(s, 0, m);
        lemma_rows_found(got, want, region, region.y1 as int, tolerance, m);
    }
    let any = Mismatch { x: 0, y: 0, channel: 0, got: 0, want: 0 };
    lemma_ranked_from(s, 0, any);
    if r.len() != 0 {
        let m = r[0];
        assert(r.contains(m));
        assert(is_mismatch(got, want, region, tolerance, m));
        assert(gap(got.sample(m.x as int, m.y as int, m.channel as int), want.sample(
            m.x as int,
            m.y as int,
            m.channel as int,
        )) > tolerance);
    }
    assert((forall|x: int, y: int, c: int|
        region.spec_contains(x, y) && 0 <= c < shared_channels(got, want) ==> gap(
            #[trigger] got.sample(x, y, c),
            #[trigger] want.sample(x, y, c),
        ) <= tolerance) ==> r.len() == 0) by {
        if r.len() != 0 {
            let m = r[0];
            assert(r.contains(m));
        }
    }
    assert(r.len() == 0 ==> (forall|x: int, y: int, c: int|
        region.spec_contains(x, y) && 0 <= c < shared_channels(got, want) ==> gap(
            #[trigger] got.sample(x, y, c),
            #[trigger] want.sample(x, y, c),
        ) <= tolerance)) by {
        if r.len() == 0 {
            assert forall|x: int, y: int, c: int|
                region.spec_contains(x, y) && 0 <= c < shared_channels(got, want) implies gap(
                #[trigger] got.sample(x, y, c),
                #[trigger] want.sample(x, y, c),
            ) <= tolerance by {
                let (g, w) = (got.sample(x, y, c), want.sample(x, y, c));
                let m = Mismatch { x: x as usize, y: y as usize, channel: c as usize, got: g, want: w };
                if gap(g, w) > tolerance {
                    assert(is_mismatch(got, want, region, tolerance, m));
                    assert(r.contains(m));
                }
            }
        }
    }
}


proof fn lemma_row_extremes(f: Frame, x: int, y: int, c: int, n: int, v: int)
    requires
        0 <= v <= 255,
    ensures
        forall|k: int| 0 <= k < n ==> row_low(f, x, y, c, n) <= #[trigger] f.sample(x + k, y, c)
            <= row_high(f, x, y, c, n),
        (forall|k: int| 0 <= k < n ==> #[trigger] f.sample(x + k, y, c) == v) ==> (row_high(
            f,
            x,
            y,
            c,
            n,
        ) <= v && row_low(f, x, y, c, n) >= v),
    decreases n,
{
    if n > 0 {
        lemma_row_extremes(f, x, y, c, n - 1, v);
        assert forall|k: int| 0 <= k < n implies row_low(f, x, y, c, n) <= #[trigger] f.sample(
            x + k,
            y,
            c,
        ) <= row_high(f, x, y, c, n) by {
            if k < n - 1 {
                assert(row_low(f, x, y, c, n - 1) <= f.sample(x + k, y, c) <= row_high(f, x, y, c, n - 1));
            }
        }
        if forall|k: int| 0 <= k < n ==> #[trigger] f.sample(x + k, y, c) == v {
            assert(f.sample(x + (n - 1), y, c) == v);
            assert forall|k: int| 0 <= k < n - 1 implies #[trigger] f.sample(x + k, y, c) == v by {
                assert(f.sample(x + k, y, c) == v);
            }
        }
    }
}

proof fn lemma_cell_extremes(f: Frame, x: int, y: int, c: int, block: int, m: int, v: int)
    requires
        0 <= v <= 255,
        block >= 0,
    ensures
        forall|dx: int, dy: int|
            0 <= dx < block && 0 <= dy < m ==> cell_low(f, x, y, c, block, m) <= #[trigger] f.sample(
                x + dx,
                y + dy,
                c,
            ) <= cell_high(f, x, y, c, block, m),
        (forall|dx: int, dy: int|
            0 <= dx < block && 0 <= dy < m ==> #[trigger] f.sample(x + dx, y + dy, c) == v) ==> (
        cell_high(f, x, y, c, block, m) <= v && cell_low(f, x, y, c, block, m) >= v),
    decreases m,
{
    if m > 0 {
        lemma_cell_extremes(f, x, y, c, block, m - 1, v);
        let row_y = y + (m - 1);
        lemma_row_extremes(f, x, row_y, c, block, v);
        assert forall|dx: int, dy: int|
            0 <= dx < block && 0 <= dy < m implies cell_low(f, x, y, c, block, m)
            <= #[trigger] f.sample(x + dx, y + dy, c) <= cell_high(f, x, y, c, block, m) by {
            if dy < m - 1 {
                assert(cell_low(f, x, y, c, block, m - 1) <= f.sample(x + dx, y + dy, c));
                assert(f.sample(x + dx, y + dy, c) <= cell_high(f, x, y, c, block, m - 1));
            } else {
                assert(row_low(f, x, row_y, c, block) <= f.sample(x + dx, row_y, c) <= row_high(
                    f,
                    x,
                    row_y,
                    c,
                    block,
                ));
            }
        }
        if forall|dx: int, dy: int|
            0 <= dx < block && 0 <= dy < m ==> #[trigger] f.sample(x + dx, y + dy, c) == v {
            assert forall|k: int| 0 <= k < block implies #[trigger] f.sample(x + k, row_y, c) == v by {
                assert(f.sample(x + k, y + (m - 1), c) == v);
            }
            assert forall|dx: int, dy: int|
                0 <= dx < block && 0 <= dy < m - 1 implies #[trigger] f.sample(x + dx, y + dy, c) == v by {
                assert(f.sample(x + dx, y + dy, c) == v);
            }
        }
    }
}

/// A block has no spread in a channel exactly when every pixel of it carries
/// the same value there: one pixel of anything else gives it one.
pub proof fn law_no_spread_means_a_flat_block(f: Frame, x: int, y: int, c: int, block: int)
    requires
        block >= 1,
    ensures
        spread(f, x, y, c, block) >= 0,
        spread(f, x, y, c, block) == 0 <==> forall|dx: int, dy: int|
            0 <= dx < block && 0 <= dy < block ==> #[trigger] f.sample(x + dx, y + dy, c) == f.sample(
                x,
                y,
                c,
            ),
{
    let v = f.sample(x, y, c) as int;
    lemma_cell_extremes(f, x, y, c, block, block, v);
    lemma_cell_bounds(f, x, y, c, block, block);
    assert(f.sample(x + 0, y + 0, c) == f.sample(x, y, c));
    if spread(f, x, y, c, block) == 0 {
        assert forall|dx: int, dy: int|
            0 <= dx < block && 0 <= dy < block implies #[trigger] f.sample(x + dx, y + dy, c)
            == f.sample(x, y, c) by {
            assert(cell_low(f, x, y, c, block, block) <= f.sample(x + dx, y + dy, c) <= cell_high(
                f,
                x,
                y,
                c,
                block,
                block,
            ));
        }
    }
}


/// How many whole `block`-wide cells fit between `start` and `end` when the
/// first starts at `start`.
pub open spec fn cells_between(start: int, end: int, block: int) -> int {
    if start + block > end {
        0
    } else {
        (end - start) / block
    }
}

proof fn lemma_cell_spreads_len(f: Frame, x: int, y: int, block: int, n: int)
    requires
        n >= 0,
    ensures
        cell_spreads(f, x, y, block, n).len() == n,
    decreases n,
{
    if n > 0 {
        lemma_cell_spreads_len(f, x, y, block, n - 1);
    }
}

proof fn lemma_row_spreads_len(f: Frame, region: Rect, block: int, y: int, x: int)
    requires
        block >= 1,
    ensures
        row_spreads(f, region, block, y, x).len() == f.channels * cells_between(x, region.x1 as int, block),
    decreases region.x1 - x,
{
    let end = region.x1 as int;
    if x + block <= end {
        lemma_row_spreads_len(f, region, block, y, x + block);
        lemma_cell_spreads_len(f, x, y, block, f.channels as int);
        lemma_div_plus_one(end - x - block, block);
        assert(block + (end - x - block) == end - x);
        if x + block + block > end {
            lemma_basic_div_specific_divisor(block);
            assert((end - x - block) / block == 0);
        }
        let k = cells_between(x + block, end, block);
        assert(cells_between(x, end, block) == 1 + k);
        assert(f.channels + f.channels * k == f.channels * (1 + k)) by (nonlinear_arith);
    } else {
        assert(f.channels * 0 == 0) by (nonlinear_arith);
    }
}

proof fn lemma_rows_spreads_len(f: Frame, region: Rect, block: int, y: int)
    requires
        block >= 1,
    ensures
        rows_spreads(f, region, block, y).len() == f.channels * cells_between(
            first_on_grid(region.x0 as int, block),
            region.x1 as int,
            block,
        ) * cells_between(y, region.y1 as int, block),
    decreases region.y1 - y,
{
    let end = region.y1 as int;
    let per_row = f.channels * cells_between(first_on_grid(region.x0 as int, block), region.x1 as int, block);
    lemma_row_spreads_len(f, region, block, y, first_on_grid(region.x0 as int, block));
    if y + block <= end {
        lemma_rows_spreads_len(f, region, block, y + block);
        lemma_div_plus_one(end - y - block, block);
        assert(block + (end - y - block) == end - y);
        if y + block + block > end {
            lemma_basic_div_specific_divisor(block);
            assert((end - y - block) / block == 0);
        }
        let k = cells_between(y + block, end, block);
        assert(cells_between(y, end, block) == 1 + k);
        assert(per_row + per_row * k == per_row * (1 + k)) by (nonlinear_arith);
    } else {
        assert(per_row * 0 == 0) by (nonlinear_arith);
    }
}

/// Only whole blocks of the grid inside the region are measured: the answer
/// holds one spread per channel for every block that starts on the grid at
/// or after the region's first corner and ends inside it.
pub proof fn law_only_whole_blocks_on_the_grid_are_measured(f: Frame, region: Rect, block: int)
    requires
        block >= 1,
    ensures
        spreads(f, region, block).len() == f.channels * cells_between(
            first_on_grid(region.x0 as int, block),
            region.x1 as int,
            block,
        ) * cells_between(first_on_grid(region.y0 as int, block), region.y1 as int, block),
{
    lemma_rows_spreads_len(f, region, block, first_on_grid(region.y0 as int, block));
}


/// Any region inside a frame that holds exactly its own bytes can be
/// measured, block by block, as long as the grid's arithmetic keeps room
/// past the region's far corner.
pub proof fn law_a_region_inside_a_whole_frame_is_measurable(f: Frame, region: Rect, block: int)
    requires
        f.has_shape(),
        block >= 1,
        region.x1 <= f.width,
        region.y1 <= f.height,
        region.x1 + 2 * block <= usize::MAX,
        region.y1 + 2 * block <= usize::MAX,
        region.x0 <= region.x1,
        region.y0 <= region.y1,
    ensures
        measurable(f, region, block),
{
    assert forall|x: int, y: int|
        on_grid(x, block) && region.x0 <= x && x + block <= region.x1 && on_grid(y, block)
            && region.y0 <= y && y + block <= region.y1 implies #[trigger] cell_readable(
        f,
        x,
        y,
        block,
    ) by {
        assert forall|dx: int, dy: int, c: int|
            0 <= dx < block && 0 <= dy < block && 0 <= c < f.channels implies #[trigger] f.readable(
            x + dx,
            y + dy,
            c,
        ) by {
            law_a_whole_frame_reads_anywhere_inside(f, x + dx, y + dy, c);
        }
    }
}


/// Any region inside two frames that each hold exactly their own bytes can be
/// compared.
pub proof fn law_a_region_inside_two_whole_frames_is_comparable(got: Frame, want: Frame, region: Rect)
    requires
        got.has_shape(),
        want.has_shape(),
        region.x1 <= got.width,
        region.x1 <= want.width,
        region.y1 <= got.height,
        region.y1 <= want.height,
    ensures
        comparable(got, want, region),
{
    assert forall|x: int, y: int, c: int|
        region.x0 <= x < region.x1 && region.y0 <= y < region.y1 && 0 <= c < shared_channels(
            got,
            want,
        ) implies got.readable(x, y, c) && want.readable(x, y, c) by {
        law_a_whole_frame_reads_anywhere_inside(got, x, y, c);
        law_a_whole_frame_reads_anywhere_inside(want, x, y, c);
    }
}


/// Two reports name the same channel of the same pixel.
pub open spec fn same_place(a: Mismatch, b: Mismatch) -> bool {
    a.x == b.x && a.y == b.y && a.channel == b.channel
}

/// No two entries of `s` name the same channel of the same pixel.
pub open spec fn once_each(s: Seq<Mismatch>) -> bool {
    forall|i: int, j: int| 0 <= i < j < s.len() ==> !same_place(#[trigger] s[i], #[trigger] s[j])
}

proof fn lemma_once_each_concat(a: Seq<Mismatch>, b: Seq<Mismatch>)
    requires
        once_each(a),
        once_each(b),
        forall|m: Mismatch, n: Mismatch| a.contains(m) && b.contains(n) ==> !same_place(m, n),
    ensures
        once_each(a + b),
{
    let s = a + b;
    assert forall|i: int, j: int| 0 <= i < j < s.len() implies !same_place(#[trigger] s[i], #[trigger] s[j]) by {
        if j < a.len() {
            assert(s[i] == a[i] && s[j] == a[j]);
        } else if i >= a.len() {
            assert(s[i] == b[i - a.len()] && s[j] == b[j - a.len()]);
        } else {
            assert(s[i] == a[i] && a.contains(a[i]));
            assert(s[j] == b[j - a.len()] && b.contains(b[j - a.len()]));
        }
    }
}

proof fn lemma_pixel_found_once(got: Frame, want: Frame, x: int, y: int, n: int, tolerance: u8)
    requires
        0 <= x <= usize::MAX,
        0 <= y <= usize::MAX,
        n <= usize::MAX,
    ensures
        once_each(pixel_found(got, want, x, y, n, tolerance)),
    decreases n,
{
    if n > 0 {
        lemma_pixel_found_once(got, want, x, y, n - 1, tolerance);
        let (a, b) = (pixel_found(got, want, x, y, n - 1, tolerance), mismatch_at(got, want, x, y, n - 1, tolerance));
        assert forall|m: Mismatch, k: Mismatch| a.contains(m) && b.contains(k) implies !same_place(m, k) by {
            lemma_pixel_found(got, want, x, y, n - 1, tolerance, m);
            assert(b[0] == k);
        }
        lemma_once_each_concat(a, b);
    }
}

proof fn lemma_row_found_once(got: Frame, want: Frame, region: Rect, y: int, x_end: int, tolerance: u8)
    requires
        0 <= y <= usize::MAX,
        x_end <= usize::MAX,
    ensures
        once_each(row_found(got, want, region, y, x_end, tolerance)),
    decreases x_end - region.x0,
{
    if x_end > region.x0 {
        lemma_row_found_once(got, want, region, y, x_end - 1, tolerance);
        lemma_pixel_found_once(got, want, x_end - 1, y, shared_channels(got, want), tolerance);
        let a = row_found(got, want, region, y, x_end - 1, tolerance);
        let b = pixel_found(got, want, x_end - 1, y, shared_channels(got, want), tolerance);
        assert forall|m: Mismatch, k: Mismatch| a.contains(m) && b.contains(k) implies !same_place(m, k) by {
            lemma_row_found(got, want, region, y, x_end - 1, tolerance, m);
            lemma_pixel_found(got, want, x_end - 1, y, shared_channels(got, want), tolerance, k);
        }
        lemma_once_each_concat(a, b);
    }
}

proof fn lemma_rows_found_once(got: Frame, want: Frame, region: Rect, y_end: int, tolerance: u8)
    requires
        y_end <= usize::MAX,
    ensures
        once_each(rows_found(got, want, region, y_end, tolerance)),
    decreases y_end - region.y0,
{
    if y_end > region.y0 {
        lemma_rows_found_once(got, want, region, y_end - 1, tolerance);
        lemma_row_found_once(got, want, region, y_end - 1, region.x1 as int, tolerance);
        let a = rows_found(got, want, region, y_end - 1, tolerance);
        let b = row_found(got, want, region, y_end - 1, region.x1 as int, tolerance);
        assert forall|m: Mismatch, k: Mismatch| a.contains(m) && b.contains(k) implies !same_place(m, k) by {
            lemma_rows_found(got, want, region, y_end - 1, tolerance, m);
            lemma_row_found(got, want, region, y_end - 1, region.x1 as int, tolerance, k);
        }
        lemma_once_each_concat(a, b);
    }
}

/// Two entries of a sequence that reports each place once, at the same
/// place, are one entry.
proof fn lemma_once_each_same(s: Seq<Mismatch>, m: Mismatch, k: Mismatch)
    requires
        once_each(s),
        s.contains(m),
        s.contains(k),
        same_place(m, k),
    ensures
        m == k,
{
    let i = choose|i: int| 0 <= i < s.len() && s[i] == m;
    let j = choose|j: int| 0 <= j < s.len() && s[j] == k;
    if i < j {
        assert(!same_place(s[i], s[j]));
    } else if j < i {
        assert(!same_place(s[j], s[i]));
    }
}

proof fn lemma_of_size_once(s: Seq<Mismatch>, d: int)
    requires
        once_each(s),
    ensures
        once_each(of_size(s, d)),
    decreases s.len(),
{
    if s.len() > 0 {
        let rest = s.drop_last();
        assert(once_each(rest)) by {
            assert forall|i: int, j: int| 0 <= i < j < rest.len() implies !same_place(
                #[trigger] rest[i],
                #[trigger] rest[j],
            ) by {
                assert(rest[i] == s[i] && rest[j] == s[j]);
            }
        }
        lemma_of_size_once(rest, d);
        let tail = if s.last().size() == d {
            seq![s.last()]
        } else {
            seq![]
        };
        assert forall|m: Mismatch, k: Mismatch| of_size(rest, d).contains(m) && tail.contains(k) implies !same_place(
            m,
            k,
        ) by {
            lemma_of_size(rest, d, m);
            assert(tail[0] == k);
            let i = choose|i: int| 0 <= i < rest.len() && rest[i] == m;
            assert(s[i] == m && s[s.len() - 1] == k);
            assert(!same_place(s[i], s[s.len() - 1]));
        }
        if tail.len() > 0 {
            assert(once_each(tail));
        }
        lemma_once_each_concat(of_size(rest, d), tail);
    }
}

proof fn lemma_ranked_from_once(s: Seq<Mismatch>, d: int)
    requires
        0 <= d <= 256,
        once_each(s),
        forall|i: int| 0 <= i < s.len() ==> (#[trigger] s[i]).size() <= 255,
    ensures
        once_each(ranked_from(s, d)),
    decreases 256 - d,
{
    if d <= 255 {
        lemma_ranked_from_once(s, d + 1);
        lemma_of_size_once(s, d);
        let (upper, here) = (ranked_from(s, d + 1), of_size(s, d));
        assert forall|m: Mismatch, k: Mismatch| upper.contains(m) && here.contains(k) implies !same_place(m, k) by {
            lemma_ranked_from(s, d + 1, m);
            lemma_of_size(s, d, k);
            if same_place(m, k) {
                lemma_once_each_same(s, m, k);
            }
        }
        lemma_once_each_concat(upper, here);
    } else {
        assert(ranked_from(s, d) =~= Seq::<Mismatch>::empty());
    }
}

/// `differences` reports each channel of each pixel at most once: no two
/// entries of its answer share (`x`, `y`, `channel`), so the answer is as long
/// as the number of pixel channels of the region that are out.
pub proof fn law_differences_report_each_place_once(got: Frame, want: Frame, region: Rect, tolerance: u8)
    ensures
        forall|i: int, j: int|
            0 <= i < j < worst_first(found(got, want, region, tolerance)).len() ==> !(
            #[trigger] worst_first(found(got, want, region, tolerance))[i].x == #[trigger] worst_first(
                found(got, want, region, tolerance),
            )[j].x && worst_first(found(got, want, region, tolerance))[i].y == worst_first(
                found(got, want, region, tolerance),
            )[j].y && worst_first(found(got, want, region, tolerance))[i].channel == worst_first(
                found(got, want, region, tolerance),
            )[j].channel),
{
    let s = found(got, want, region, tolerance);
    lemma_rows_found_once(got, want, region, region.y1 as int, tolerance);
    assert forall|i: int| 0 <= i < s.len() implies (#[trigger] s[i]).size() <= 255 by {
        let m = s[i];
        assert(gap(m.got, m.want) <= 255);
    }
    lemma_ranked_from_once(s, 0);
    let r = worst_first(s);
    assert forall|i: int, j: int| 0 <= i < j < r.len() implies !(#[trigger] r[i].x == #[trigger] r[j].x
        && r[i].y == r[j].y && r[i].channel == r[j].channel) by {
        assert(!same_place(r[i], r[j]));
    }
}


proof fn lemma_row_extremes_attained(f: Frame, x: int, y: int, c: int, n: int)
    requires
        n >= 1,
    ensures
        exists|k: int| 0 <= k < n && #[trigger] f.sample(x + k, y, c) == row_high(f, x, y, c, n),
        exists|k: int| 0 <= k < n && #[trigger] f.sample(x + k, y, c) == row_low(f, x, y, c, n),
    decreases n,
{
    let v = f.sample(x + (n - 1), y, c);
    if n == 1 {
        assert(row_high(f, x, y, c, 0) == 0);
        assert(row_low(f, x, y, c, 0) == 255);
        assert(f.sample(x + 0, y, c) == row_high(f, x, y, c, n));
        assert(f.sample(x + 0, y, c) == row_low(f, x, y, c, n));
    } else {
        lemma_row_extremes_attained(f, x, y, c, n - 1);
        if v > row_high(f, x, y, c, n - 1) {
            assert(f.sample(x + (n - 1), y, c) == row_high(f, x, y, c, n));
        } else {
            let k = choose|k: int| 0 <= k < n - 1 && #[trigger] f.sample(x + k, y, c) == row_high(f, x, y, c, n - 1);
            assert(f.sample(x + k, y, c) == row_high(f, x, y, c, n));
        }
        if v < row_low(f, x, y, c, n - 1) {
            assert(f.sample(x + (n - 1), y, c) == row_low(f, x, y, c, n));
        } else {
            let k = choose|k: int| 0 <= k < n - 1 && #[trigger] f.sample(x + k, y, c) == row_low(f, x, y, c, n - 1);
            assert(f.sample(x + k, y, c) == row_low(f, x, y, c, n));
        }
    }
}

proof fn lemma_cell_extremes_attained(f: Frame, x: int, y: int, c: int, block: int, m: int)
    requires
        m >= 1,
        block >= 1,
    ensures
        exists|dx: int, dy: int|
            0 <= dx < block && 0 <= dy < m && #[trigger] f.sample(x + dx, y + dy, c) == cell_high(
                f,
                x,
                y,
                c,
                block,
                m,
            ),
        exists|dx: int, dy: int|
            0 <= dx < block && 0 <= dy < m && #[trigger] f.sample(x + dx, y + dy, c) == cell_low(
                f,
                x,
                y,
                c,
                block,
                m,
            ),
    decreases m,
{
    let row_y = y + (m - 1);
    lemma_row_extremes_attained(f, x, row_y, c, block);
    let kh = choose|k: int| 0 <= k < block && #[trigger] f.sample(x + k, row_y, c) == row_high(f, x, row_y, c, block);
    let kl = choose|k: int| 0 <= k < block && #[trigger] f.sample(x + k, row_y, c) == row_low(f, x, row_y, c, block);
    assert(f.sample(x + kh, y + (m - 1), c) == f.sample(x + kh, row_y, c));
    assert(f.sample(x + kl, y + (m - 1), c) == f.sample(x + kl, row_y, c));
    if m == 1 {
        lemma_row_bounds(f, x, row_y, c, block);
        assert(cell_high(f, x, y, c, block, 0) == 0);
        assert(cell_low(f, x, y, c, block, 0) == 255);
        assert(f.sample(x + kh, y + 0, c) == cell_high(f, x, y, c, block, m));
        assert(f.sample(x + kl, y + 0, c) == cell_low(f, x, y, c, block, m));
    } else {
        lemma_cell_extremes_attained(f, x, y, c, block, m - 1);
        if row_high(f, x, row_y, c, block) > cell_high(f, x, y, c, block, m - 1) {
            assert(f.sample(x + kh, y + (m - 1), c) == cell_high(f, x, y, c, block, m));
        } else {
            let (dx, dy) = choose|dx: int, dy: int|
                0 <= dx < block && 0 <= dy < m - 1 && #[trigger] f.sample(x + dx, y + dy, c) == cell_high(
                    f,
                    x,
                    y,
                    c,
                    block,
                    m - 1,
                );
            assert(f.sample(x + dx, y + dy, c) == cell_high(f, x, y, c, block, m));
        }
        if row_low(f, x, row_y, c, block) < cell_low(f, x, y, c, block, m - 1) {
            assert(f.sample(x + kl, y + (m - 1), c) == cell_low(f, x, y, c, block, m));
        } else {
            let (dx, dy) = choose|dx: int, dy: int|
                0 <= dx < block && 0 <= dy < m - 1 && #[trigger] f.sample(x + dx, y + dy, c) == cell_low(
                    f,
                    x,
                    y,
                    c,
                    block,
                    m - 1,
                );
            assert(f.sample(x + dx, y + dy, c) == cell_low(f, x, y, c, block, m));
        }
    }
}

proof fn lemma_cells_between_step(x: int, end: int, block: int)
    requires
        block >= 1,
        x + block <= end,
    ensures
        cells_between(x, end, block) == 1 + cells_between(x + block, end, block),
{
    lemma_div_plus_one(end - x - block, block);
    assert(block + (end - x - block) == end - x);
    if x + block + block > end {
        lemma_basic_div_specific_divisor(block);
        assert((end - x - block) / block == 0);
    }
}

proof fn lemma_cell_spreads_at(f: Frame, x: int, y: int, block: int, n: int, c: int)
    requires
        0 <= c < n,
    ensures
        cell_spreads(f, x, y, block, n)[c] == spread(f, x, y, c, block) as u8,
    decreases n,
{
    lemma_cell_spreads_len(f, x, y, block, n - 1);
    if c < n - 1 {
        lemma_cell_spreads_at(f, x, y, block, n - 1, c);
    }
}

proof fn lemma_row_spreads_at(f: Frame, region: Rect, block: int, y: int, x: int, j: int, c: int)
    requires
        block >= 1,
        0 <= j < cells_between(x, region.x1 as int, block),
        0 <= c < f.channels,
    ensures
        row_spreads(f, region, block, y, x)[j * f.channels + c] == spread(f, x + j * block, y, c, block)
            as u8,
    decreases region.x1 - x,
{
    let ch = f.channels as int;
    assert(x + block <= region.x1);
    lemma_cell_spreads_len(f, x, y, block, ch);
    lemma_cells_between_step(x, region.x1 as int, block);
    let a = cell_spreads(f, x, y, block, ch);
    let b = row_spreads(f, region, block, y, x + block);
    assert(row_spreads(f, region, block, y, x) == a + b);
    if j == 0 {
        assert(0 * ch + c == c);
        lemma_cell_spreads_at(f, x, y, block, ch, c);
        assert((a + b)[c] == a[c]);
        assert(x + 0 * block == x);
    } else {
        lemma_row_spreads_at(f, region, block, y, x + block, j - 1, c);
        lemma_row_spreads_len(f, region, block, y, x + block);
        let k = cells_between(x + block, region.x1 as int, block);
        assert(j * ch + c - ch == (j - 1) * ch + c && j * ch + c >= ch) by (nonlinear_arith)
            requires
                j >= 1,
                c >= 0,
                ch >= 0,
        ;
        assert((j - 1) * ch + c < ch * k) by (nonlinear_arith)
            requires
                0 <= j - 1 < k,
                0 <= c < ch,
        {
            assert((j - 1) * ch <= (k - 1) * ch);
        }
        assert((a + b)[j * ch + c] == b[(j - 1) * ch + c]);
        assert(x + block + (j - 1) * block == x + j * block) by (nonlinear_arith);
    }
}

proof fn lemma_rows_spreads_at(f: Frame, region: Rect, block: int, y: int, i: int, j: int, c: int)
    requires
        block >= 1,
        0 <= i < cells_between(y, region.y1 as int, block),
        0 <= j < cells_between(first_on_grid(region.x0 as int, block), region.x1 as int, block),
        0 <= c < f.channels,
    ensures
        rows_spreads(f, region, block, y)[i * (f.channels * cells_between(
            first_on_grid(region.x0 as int, block),
            region.x1 as int,
            block,
        )) + j * f.channels + c] == spread(
            f,
            first_on_grid(region.x0 as int, block) + j * block,
            y + i * block,
            c,
            block,
        ) as u8,
    decreases region.y1 - y,
{
    let ch = f.channels as int;
    let fx = first_on_grid(region.x0 as int, block);
    let across = cells_between(fx, region.x1 as int, block);
    let per_row = ch * across;
    assert(y + block <= region.y1);
    lemma_row_spreads_len(f, region, block, y, fx);
    lemma_cells_between_step(y, region.y1 as int, block);
    assert(j * ch + c < per_row) by (nonlinear_arith)
        requires
            0 <= j < across,
            0 <= c < ch,
            per_row == ch * across,
    {
        assert(j * ch <= (across - 1) * ch);
    }
    assert(j * ch + c >= 0) by (nonlinear_arith)
        requires
            j >= 0,
            c >= 0,
            ch >= 0,
    ;
    let a = row_spreads(f, region, block, y, fx);
    let b = rows_spreads(f, region, block, y + block);
    assert(rows_spreads(f, region, block, y) == a + b);
    if i == 0 {
        assert(0 * per_row == 0);
        lemma_row_spreads_at(f, region, block, y, fx, j, c);
        assert((a + b)[j * ch + c] == a[j * ch + c]);
        assert(y + 0 * block == y);
    } else {
        lemma_rows_spreads_at(f, region, block, y + block, i - 1, j, c);
        lemma_rows_spreads_len(f, region, block, y + block);
        let k = cells_between(y + block, region.y1 as int, block);
        assert((i - 1) * per_row + j * ch + c < per_row * k) by (nonlinear_arith)
            requires
                0 <= i - 1 < k,
                0 <= j * ch + c < per_row,
        {
            assert((i - 1) * per_row <= (k - 1) * per_row);
        }
        assert(per_row * k == ch * across * k) by (nonlinear_arith)
            requires
                per_row == ch * across,
        ;
        assert(i * per_row + j * ch + c >= per_row) by (nonlinear_arith)
            requires
                i >= 1,
                per_row >= 0,
                j * ch + c >= 0,
        ;
        assert(i * per_row + j * ch + c - per_row == (i - 1) * per_row + j * ch + c) by (nonlinear_arith);
        assert((a + b)[i * per_row + j * ch + c] == b[(i - 1) * per_row + j * ch + c]);
        assert(i * per_row + j * ch + c - per_row == (i - 1) * per_row + j * ch + c && i * per_row >= per_row)
            by (nonlinear_arith)
            requires
                i >= 1,
                per_row >= 0,
        ;
        assert(y + block + (i - 1) * block == y + i * block) by (nonlinear_arith);
    }
}

/// Entry `c` of each block's group is the spread of channel `c` of that
/// block: for the block `bx` across and `by` down the grid inside the region,
/// entry `(by * across + bx) * channels + c` of the answer is the largest
/// difference between two samples of channel `c` in that block, and some two
/// samples of it are exactly that far apart.
pub proof fn law_each_spread_is_its_blocks_range(
    f: Frame,
    region: Rect,
    block: int,
    bx: int,
    by: int,
    c: int,
)
    requires
        block >= 1,
        0 <= bx < cells_between(first_on_grid(region.x0 as int, block), region.x1 as int, block),
        0 <= by < cells_between(first_on_grid(region.y0 as int, block), region.y1 as int, block),
        0 <= c < f.channels,
    ensures
        ({
            let across = cells_between(first_on_grid(region.x0 as int, block), region.x1 as int, block);
            let x = first_on_grid(region.x0 as int, block) + bx * block;
            let y = first_on_grid(region.y0 as int, block) + by * block;
            let e = spreads(f, region, block)[(by * across + bx) * f.channels + c] as int;
            &&& forall|dx1: int, dy1: int, dx2: int, dy2: int|
                0 <= dx1 < block && 0 <= dy1 < block && 0 <= dx2 < block && 0 <= dy2 < block ==> (
                #[trigger] f.sample(x + dx1, y + dy1, c)) - (#[trigger] f.sample(x + dx2, y + dy2, c))
                    <= e
            &&& exists|dx1: int, dy1: int, dx2: int, dy2: int|
                0 <= dx1 < block && 0 <= dy1 < block && 0 <= dx2 < block && 0 <= dy2 < block && (
                #[trigger] f.sample(x + dx1, y + dy1, c)) - (#[trigger] f.sample(x + dx2, y + dy2, c))
                    == e
        }),
{
    let ch = f.channels as int;
    let fx = first_on_grid(region.x0 as int, block);
    let fy = first_on_grid(region.y0 as int, block);
    let across = cells_between(fx, region.x1 as int, block);
    let x = fx + bx * block;
    let y = fy + by * block;
    lemma_rows_spreads_at(f, region, block, fy, by, bx, c);
    assert((by * across + bx) * ch + c == by * (ch * across) + bx * ch + c) by (nonlinear_arith);
    let e = spreads(f, region, block)[(by * across + bx) * ch + c] as int;
    let hi = cell_high(f, x, y, c, block, block);
    let lo = cell_low(f, x, y, c, block, block);
    lemma_cell_bounds(f, x, y, c, block, block);
    assert(e == hi - lo);
    lemma_cell_extremes(f, x, y, c, block, block, 0);
    assert forall|dx1: int, dy1: int, dx2: int, dy2: int|
        0 <= dx1 < block && 0 <= dy1 < block && 0 <= dx2 < block && 0 <= dy2 < block implies (
        #[trigger] f.sample(x + dx1, y + dy1, c)) - (#[trigger] f.sample(x + dx2, y + dy2, c)) <= e by {
        assert(lo <= f.sample(x + dx1, y + dy1, c) <= hi);
        assert(lo <= f.sample(x + dx2, y + dy2, c) <= hi);
    }
    lemma_cell_extremes_attained(f, x, y, c, block, block);
    let (hx, hy) = choose|dx: int, dy: int|
        0 <= dx < block && 0 <= dy < block && #[trigger] f.sample(x + dx, y + dy, c) == hi;
    let (lx, ly) = choose|dx: int, dy: int|
        0 <= dx < block && 0 <= dy < block && #[trigger] f.sample(x + dx, y + dy, c) == lo;
    assert(f.sample(x + hx, y + hy, c) - f.sample(x + lx, y + ly, c) == e);
}


/// Samples are interleaved row by row: the first sample of a frame is its
/// first byte, the channels of one pixel sit side by side, each pixel follows
/// the one to its left, and each row follows the row above it.
pub proof fn law_samples_are_interleaved_row_by_row(f: Frame, x: int, y: int, c: int)
    ensures
        f.offset(0, 0, 0) == 0,
        f.offset(x, y, c + 1) == f.offset(x, y, c) + 1,
        f.offset(x + 1, y, c) == f.offset(x, y, c) + f.channels,
        f.offset(x, y + 1, c) == f.offset(x, y, c) + f.width * f.channels,
{
    let (w, ch) = (f.width as int, f.channels as int);
    assert((0 * w + 0) * ch + 0 == 0) by (nonlinear_arith);
    assert((y * w + x + 1) * ch == (y * w + x) * ch + ch) by (nonlinear_arith);
    assert(((y + 1) * w + x) * ch == (y * w + x) * ch + w * ch) by (nonlinear_arith);
}

} // verus!
