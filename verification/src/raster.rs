//! Rasterizer/exporter: flatten the annotation list into a pixel
//! buffer.
//!
//! A thick line is drawn by stepping along the segment — two samples
//! per unit of its taxicab length, at least one sample per half-pixel
//! of its Euclidean length — and stamping a square block of side
//! `2 * (thickness / 2) + 1` at each sample, clipped to the buffer,
//! overwriting pixel color (no blending). An arrow draws its shaft and
//! three more segments forming the head; a rectangle draws its four
//! edges; a text label is intentionally skipped (no glyph
//! rasterization in the export path).

use vstd::prelude::*;
use vstd::arithmetic::div_mod::{
    lemma_div_is_ordered,
    lemma_div_multiples_vanish,
    lemma_div_pos_is_pos,
    lemma_fundamental_div_mod,
    lemma_fundamental_div_mod_converse_div,
    lemma_fundamental_div_mod_converse_mod,
};
use crate::model::{AnnView, Annotation, Color, Pt};
use crate::geom::div_floor;

verus! {

/// Largest buffer dimension the rasterizer accepts, so that the pixel
/// count fits comfortably in a `usize` on every platform.
pub const RASTER_MAX: usize = 30_000;

/// Largest magnitude of a coordinate handed to the line rasterizer
/// (annotation geometry plus the arrowhead overhang).
pub const LINE_COORD_MAX: i64 = 1_000_000;

/// An owned RGBA pixel buffer in row-major order.
pub struct PixelBuf {
    pub width: usize,
    pub height: usize,
    pub pixels: Vec<Color>,
}

impl PixelBuf {
    pub open spec fn wf(self) -> bool {
        &&& self.pixels@.len() == self.width * self.height
        &&& self.width <= RASTER_MAX
        &&& self.height <= RASTER_MAX
    }

    /// A buffer of the given dimensions, uniformly filled.
    pub fn new_filled(width: usize, height: usize, fill: Color) -> (b: PixelBuf)
        requires
            width <= RASTER_MAX,
            height <= RASTER_MAX,
        ensures
            b.wf(),
            b.width == width,
            b.height == height,
            b.pixels@ == Seq::new((width * height) as nat, |k: int| fill),
    {
        proof {
            assert(width * height <= RASTER_MAX * RASTER_MAX) by (nonlinear_arith)
                requires width <= RASTER_MAX && height <= RASTER_MAX;
        }
        let n: usize = width * height;
        let mut pixels: Vec<Color> = Vec::new();
        let mut i: usize = 0;
        while i < n
            invariant
                0 <= i <= n,
                pixels@ =~= Seq::new(i as nat, |k: int| fill),
            decreases n - i,
        {
            pixels.push(fill);
            i = i + 1;
        }
        PixelBuf { width, height, pixels }
    }

    /// The pixel at column `x`, row `y`.
    pub fn get(&self, x: usize, y: usize) -> (c: Color)
        requires
            self.wf(),
            x < self.width,
            y < self.height,
        ensures
            c == self.pixels@[y * self.width + x],
    {
        proof {
            lemma_row_col_in_range(x as int, y as int, self.width as int, self.height as int);
            assert((y as int) * (self.width as int) + (x as int) <= 900_000_000)
                by (nonlinear_arith)
                requires 0 <= x < self.width <= 30_000 && 0 <= y < self.height <= 30_000;
        }
        self.pixels[y * self.width + x]
    }
}

pub open spec fn iabs(v: int) -> int {
    if v < 0 {
        -v
    } else {
        v
    }
}

/// The number of steps used for a segment: two per unit of taxicab
/// length (never fewer samples than twice the Euclidean length).
pub open spec fn line_steps(x0: int, y0: int, x1: int, y1: int) -> int {
    2 * (iabs(x1 - x0) + iabs(y1 - y0))
}

pub open spec fn line_denom(x0: int, y0: int, x1: int, y1: int) -> int {
    let s = line_steps(x0, y0, x1, y1);
    if s == 0 {
        1
    } else {
        s
    }
}

/// The x coordinate of sample `i` along the segment.
pub open spec fn sample_x(x0: int, x1: int, i: int, denom: int) -> int {
    x0 + ((x1 - x0) * i) / denom
}

/// Whether `(px, py)` lies in the square block of half side `half`
/// stamped at `(cx, cy)`.
pub open spec fn in_square(cx: int, cy: int, half: int, px: int, py: int) -> bool {
    iabs(px - cx) <= half && iabs(py - cy) <= half
}

/// Whether `(px, py)` is covered by one of the blocks stamped for the
/// samples `0 ..= i_max` of the segment, with half side `t / 2`.
pub open spec fn covered_upto(
    x0: int,
    y0: int,
    x1: int,
    y1: int,
    t: int,
    px: int,
    py: int,
    i_max: int,
) -> bool {
    let denom = line_denom(x0, y0, x1, y1);
    exists|i: int|
        0 <= i <= i_max && #[trigger] in_square(
            sample_x(x0, x1, i, denom),
            sample_x(y0, y1, i, denom),
            t / 2,
            px,
            py,
        )
}

/// Whether `(px, py)` is covered by the thick segment.
pub open spec fn covered(x0: int, y0: int, x1: int, y1: int, t: int, px: int, py: int) -> bool {
    covered_upto(x0, y0, x1, y1, t, px, py, line_steps(x0, y0, x1, y1))
}

/// The buffer after stamping one square block, pointwise.
pub open spec fn stamp_spec(pix: Seq<Color>, w: int, cx: int, cy: int, half: int, c: Color) -> Seq<
    Color,
> {
    Seq::new(pix.len(), |k: int| if in_square(cx, cy, half, k % w, k / w) {
        c
    } else {
        pix[k]
    })
}

/// The buffer after drawing one thick segment, pointwise: exactly the
/// covered pixels take the stroke color.
pub open spec fn draw_line_spec(
    pix: Seq<Color>,
    w: int,
    x0: int,
    y0: int,
    x1: int,
    y1: int,
    t: int,
    c: Color,
) -> Seq<Color> {
    Seq::new(pix.len(), |k: int| if covered(x0, y0, x1, y1, t, k % w, k / w) {
        c
    } else {
        pix[k]
    })
}

/// A valid flat index decomposes into a row below `h` and a column
/// below `w`.
proof fn lemma_idx(k: int, w: int, h: int)
    requires
        0 < w,
        0 <= k < w * h,
    ensures
        0 <= k % w < w,
        0 <= k / w < h,
        k == (k / w) * w + (k % w),
{
    lemma_fundamental_div_mod(k, w);
    assert(0 <= k % w < w);
    let q = k / w;
    assert(k == w * q + k % w);
    assert(w * q == q * w) by (nonlinear_arith);
    if q < 0 {
        assert(q * w <= -w) by (nonlinear_arith)
            requires q <= -1 && w > 0;
        assert(false);
    }
    if q >= h {
        assert(q * w >= h * w) by (nonlinear_arith)
            requires q >= h && w > 0;
        assert(h * w == w * h) by (nonlinear_arith);
        assert(false);
    }
}

/// The flat index of a valid row/column pair, and its decomposition.
proof fn lemma_row_col_in_range(x: int, y: int, w: int, h: int)
    requires
        0 <= x < w,
        0 <= y < h,
    ensures
        0 <= y * w + x < w * h,
        (y * w + x) / w == y,
        (y * w + x) % w == x,
{
    assert(0 <= y * w + x && y * w + x < w * h) by (nonlinear_arith)
        requires 0 <= x < w && 0 <= y < h;
    lemma_fundamental_div_mod_converse_div(y * w + x, w, y, x);
    lemma_fundamental_div_mod_converse_mod(y * w + x, w, y, x);
}

/// A sample offset along the segment never leaves the range spanned
/// by the full displacement: `(d * i) / denom` lies between `0` and
/// `d` for `0 <= i <= denom`.
proof fn lemma_sample_in_span(d: int, i: int, denom: int)
    requires
        1 <= denom,
        0 <= i <= denom,
    ensures
        d >= 0 ==> 0 <= (d * i) / denom <= d,
        d < 0 ==> d <= (d * i) / denom <= 0,
{
    if d >= 0 {
        assert(0 <= d * i <= d * denom) by (nonlinear_arith)
            requires 0 <= d && 0 <= i <= denom;
        lemma_div_pos_is_pos(d * i, denom);
        lemma_div_is_ordered(d * i, d * denom, denom);
        lemma_div_multiples_vanish(d, denom);
        assert(d * denom == denom * d) by (nonlinear_arith);
    } else {
        assert(d * denom <= d * i && d * i <= 0) by (nonlinear_arith)
            requires d < 0 && 0 <= i <= denom;
        lemma_div_is_ordered(d * denom, d * i, denom);
        lemma_div_is_ordered(d * i, 0, denom);
        lemma_div_multiples_vanish(d, denom);
        assert(d * denom == denom * d) by (nonlinear_arith);
        assert(0int / denom == 0);
    }
}

/// Stamp one square block of half side `half` at `(cx, cy)`, clipped
/// to the buffer, overwriting pixel color.
fn stamp_square(buf: &mut PixelBuf, cx: i64, cy: i64, half: i64, c: Color)
    requires
        old(buf).wf(),
        -20_000_000 <= cx <= 20_000_000,
        -20_000_000 <= cy <= 20_000_000,
        0 <= half <= 10_000,
    ensures
        final(buf).wf(),
        final(buf).width == old(buf).width,
        final(buf).height == old(buf).height,
        final(buf).pixels@ == stamp_spec(
            old(buf).pixels@,
            old(buf).width as int,
            cx as int,
            cy as int,
            half as int,
            c,
        ),
{
    let w = buf.width;
    let h = buf.height;
    let ghost w_i = w as int;
    let ghost pix0 = buf.pixels@;
    let y_lo: i64 = if cy - half > 0 {
        cy - half
    } else {
        0
    };
    let y_hi_excl: i64 = if cy + half + 1 < h as i64 {
        cy + half + 1
    } else {
        h as i64
    };
    let x_lo: i64 = if cx - half > 0 {
        cx - half
    } else {
        0
    };
    let x_hi_excl: i64 = if cx + half + 1 < w as i64 {
        cx + half + 1
    } else {
        w as i64
    };
    let ghost region = |k: int|
        x_lo <= k % w_i < x_hi_excl && in_square(cx as int, cy as int, half as int, k % w_i, k / w_i);
    if y_lo >= y_hi_excl || x_lo >= x_hi_excl {
        proof {
            let sspec = stamp_spec(pix0, w_i, cx as int, cy as int, half as int, c);
            assert forall|k: int| 0 <= k < pix0.len() implies #[trigger] sspec[k]
                == buf.pixels@[k] by {
                lemma_idx(k, w_i, h as int);
                assert(!in_square(cx as int, cy as int, half as int, k % w_i, k / w_i));
            }
            assert(buf.pixels@ =~= sspec);
        }
        return ;
    }
    let mut y: i64 = y_lo;
    while y < y_hi_excl
        invariant
            old(buf).wf(),
            buf.wf(),
            buf.width == w,
            buf.height == h,
            w_i == w as int,
            pix0 == old(buf).pixels@,
            pix0.len() == w * h,
            0 < w,
            0 < h,
            0 <= y_lo <= y <= y_hi_excl <= h,
            0 <= x_lo < x_hi_excl <= w,
            x_lo <= cx + half,
            cx - half <= x_hi_excl - 1,
            y_lo <= cy + half,
            cy - half <= y_hi_excl - 1,
            x_lo >= cx - half,
            x_hi_excl - 1 <= cx + half,
            y_lo >= cy - half,
            y_hi_excl - 1 <= cy + half,
            -20_000_000 <= cx <= 20_000_000,
            -20_000_000 <= cy <= 20_000_000,
            0 <= half <= 10_000,
            buf.pixels@.len() == pix0.len(),
            forall|k: int|
                0 <= k < pix0.len() ==> buf.pixels@[k] == (if y_lo <= k / w_i < y && x_lo <= k
                    % w_i < x_hi_excl {
                    c
                } else {
                    pix0[k]
                }),
        decreases y_hi_excl - y,
    {
        let mut x: i64 = x_lo;
        while x < x_hi_excl
            invariant
                buf.wf(),
                buf.width == w,
                buf.height == h,
                w_i == w as int,
                pix0.len() == w * h,
                0 < w,
                0 < h,
                0 <= y_lo <= y < y_hi_excl <= h,
                0 <= x_lo <= x <= x_hi_excl <= w,
                buf.pixels@.len() == pix0.len(),
                forall|k: int|
                    0 <= k < pix0.len() ==> buf.pixels@[k] == (if (y_lo <= k / w_i < y && x_lo <= k
                        % w_i < x_hi_excl) || (k / w_i == y && x_lo <= k % w_i < x) {
                        c
                    } else {
                        pix0[k]
                    }),
            decreases x_hi_excl - x,
        {
            proof {
                lemma_row_col_in_range(x as int, y as int, w_i, h as int);
                assert((y as int) * (w as int) + (x as int) <= 900_000_000)
                    by (nonlinear_arith)
                    requires 0 <= x < w <= 30_000 && 0 <= y < h <= 30_000;
            }
            let idx: usize = (y as usize) * w + (x as usize);
            buf.pixels.set(idx, c);
            proof {
                assert forall|k: int| 0 <= k < pix0.len() implies buf.pixels@[k] == (if (y_lo <= k
                    / w_i < y && x_lo <= k % w_i < x_hi_excl) || (k / w_i == y && x_lo <= k % w_i
                    < x + 1) {
                    c
                } else {
                    pix0[k]
                }) by {
                    lemma_idx(k, w_i, h as int);
                    if k == idx {
                        assert(k / w_i == y && k % w_i == x);
                    }
                }
            }
            x = x + 1;
        }
        y = y + 1;
    }
    proof {
        assert forall|k: int| 0 <= k < pix0.len() implies buf.pixels@[k] == (if in_square(
            cx as int,
            cy as int,
            half as int,
            k % w_i,
            k / w_i,
        ) {
            c
        } else {
            pix0[k]
        }) by {
            lemma_idx(k, w_i, h as int);
        }
        assert(buf.pixels@ =~= stamp_spec(pix0, w_i, cx as int, cy as int, half as int, c));
    }
}

/// Draw one thick segment: stamp a block at every sample point along
/// it, overwriting pixel color, clipped to the buffer.
pub fn draw_line(buf: &mut PixelBuf, x0: i64, y0: i64, x1: i64, y1: i64, t: i64, c: Color)
    requires
        old(buf).wf(),
        -LINE_COORD_MAX <= x0 <= LINE_COORD_MAX,
        -LINE_COORD_MAX <= y0 <= LINE_COORD_MAX,
        -LINE_COORD_MAX <= x1 <= LINE_COORD_MAX,
        -LINE_COORD_MAX <= y1 <= LINE_COORD_MAX,
        0 <= t <= crate::model::MAX_THICKNESS,
    ensures
        final(buf).wf(),
        final(buf).width == old(buf).width,
        final(buf).height == old(buf).height,
        final(buf).pixels@ == draw_line_spec(
            old(buf).pixels@,
            old(buf).width as int,
            x0 as int,
            y0 as int,
            x1 as int,
            y1 as int,
            t as int,
            c,
        ),
{
    let ghost w_i = old(buf).width as int;
    let ghost pix0 = old(buf).pixels@;
    let dx: i64 = x1 - x0;
    let dy: i64 = y1 - y0;
    let adx: i64 = if dx < 0 {
        -dx
    } else {
        dx
    };
    let ady: i64 = if dy < 0 {
        -dy
    } else {
        dy
    };
    let steps: i64 = 2 * (adx + ady);
    let denom: i64 = if steps == 0 {
        1
    } else {
        steps
    };
    let half: i64 = div_floor(t, 2);
    let mut i: i64 = 0;
    proof {
        assert(steps == line_steps(x0 as int, y0 as int, x1 as int, y1 as int));
        assert(denom == line_denom(x0 as int, y0 as int, x1 as int, y1 as int));
    }
    while i <= steps
        invariant
            buf.wf(),
            buf.width == old(buf).width,
            buf.height == old(buf).height,
            w_i == old(buf).width as int,
            pix0 == old(buf).pixels@,
            buf.pixels@.len() == pix0.len(),
            -1_000_000 <= x0 <= 1_000_000,
            -1_000_000 <= y0 <= 1_000_000,
            -2_000_000 <= dx <= 2_000_000,
            -2_000_000 <= dy <= 2_000_000,
            0 <= t <= 10_000,
            half == t as int / 2,
            0 <= half <= 5_000,
            steps == line_steps(x0 as int, y0 as int, x1 as int, y1 as int),
            denom == line_denom(x0 as int, y0 as int, x1 as int, y1 as int),
            0 <= steps <= 8_000_000,
            1 <= denom <= 8_000_000,
            dx == x1 - x0,
            dy == y1 - y0,
            0 <= i <= steps + 1,
            forall|k: int|
                0 <= k < pix0.len() ==> buf.pixels@[k] == (if covered_upto(
                    x0 as int,
                    y0 as int,
                    x1 as int,
                    y1 as int,
                    t as int,
                    k % w_i,
                    k / w_i,
                    i - 1,
                ) {
                    c
                } else {
                    pix0[k]
                }),
        decreases steps + 1 - i,
    {
        proof {
            assert(-16_000_000_000_000 <= (dx as int) * (i as int) <= 16_000_000_000_000)
                by (nonlinear_arith)
                requires -2_000_000 <= dx <= 2_000_000 && 0 <= i <= 8_000_000;
            assert(-16_000_000_000_000 <= (dy as int) * (i as int) <= 16_000_000_000_000)
                by (nonlinear_arith)
                requires -2_000_000 <= dy <= 2_000_000 && 0 <= i <= 8_000_000;
            lemma_sample_in_span(dx as int, i as int, denom as int);
            lemma_sample_in_span(dy as int, i as int, denom as int);
        }
        let ox: i64 = div_floor(dx * i, denom);
        let oy: i64 = div_floor(dy * i, denom);
        let cx: i64 = x0 + ox;
        let cy: i64 = y0 + oy;
        let ghost pix_before = buf.pixels@;
        stamp_square(buf, cx, cy, half, c);
        proof {
            let xi0 = x0 as int;
            let yi0 = y0 as int;
            let xi1 = x1 as int;
            let yi1 = y1 as int;
            let ti = t as int;
            let di = denom as int;
            assert(cx as int == sample_x(xi0, xi1, i as int, di));
            assert(cy as int == sample_x(yi0, yi1, i as int, di));
            assert forall|k: int| 0 <= k < pix0.len() implies buf.pixels@[k] == (if covered_upto(
                xi0,
                yi0,
                xi1,
                yi1,
                ti,
                k % w_i,
                k / w_i,
                i as int,
            ) {
                c
            } else {
                pix0[k]
            }) by {
                let px = k % w_i;
                let py = k / w_i;
                if in_square(cx as int, cy as int, ti / 2, px, py) {
                    assert(in_square(
                        sample_x(xi0, xi1, i as int, di),
                        sample_x(yi0, yi1, i as int, di),
                        ti / 2,
                        px,
                        py,
                    ));
                    assert(covered_upto(xi0, yi0, xi1, yi1, ti, px, py, i as int));
                } else {
                    if covered_upto(xi0, yi0, xi1, yi1, ti, px, py, i as int) {
                        let j = choose|j: int|
                            0 <= j <= i as int && #[trigger] in_square(
                                sample_x(xi0, xi1, j, di),
                                sample_x(yi0, yi1, j, di),
                                ti / 2,
                                px,
                                py,
                            );
                        assert(j <= i - 1);
                        assert(covered_upto(xi0, yi0, xi1, yi1, ti, px, py, i - 1));
                    }
                    if covered_upto(xi0, yi0, xi1, yi1, ti, px, py, i - 1) {
                        let j = choose|j: int|
                            0 <= j <= i - 1 && #[trigger] in_square(
                                sample_x(xi0, xi1, j, di),
                                sample_x(yi0, yi1, j, di),
                                ti / 2,
                                px,
                                py,
                            );
                        assert(covered_upto(xi0, yi0, xi1, yi1, ti, px, py, i as int));
                    }
                }
            }
        }
        i = i + 1;
    }
    proof {
        assert(buf.pixels@ =~= draw_line_spec(
            pix0,
            w_i,
            x0 as int,
            y0 as int,
            x1 as int,
            y1 as int,
            t as int,
            c,
        ));
    }
}

/// The integer square root: the largest `r` with `r * r <= n`.
pub open spec fn isqrt_spec(n: nat) -> nat
    decreases n,
{
    if n == 0 {
        0
    } else {
        let r = isqrt_spec((n - 1) as nat);
        if (r + 1) * (r + 1) <= n {
            r + 1
        } else {
            r
        }
    }
}

pub proof fn lemma_isqrt_bounds(n: nat)
    ensures
        (isqrt_spec(n) as int) * (isqrt_spec(n) as int) <= n as int,
        (n as int) < ((isqrt_spec(n) as int) + 1) * ((isqrt_spec(n) as int) + 1),
    decreases n,
{
    if n == 0 {
        assert(isqrt_spec(0) == 0);
    } else {
        lemma_isqrt_bounds((n - 1) as nat);
        let r = isqrt_spec((n - 1) as nat) as int;
        assert(r * r <= n - 1);
        assert(n - 1 < (r + 1) * (r + 1));
        if isqrt_spec(n) as int == r + 1 {
            assert(n <= (r + 1) * (r + 1));
            assert((r + 1) * (r + 1) < ((r + 1) + 1) * ((r + 1) + 1)) by (nonlinear_arith)
                requires r >= 0;
            assert(n < ((r + 1) + 1) * ((r + 1) + 1));
        } else {
            assert(isqrt_spec(n) as int == r);
        }
    }
}

/// Any value with the square-root bounding property is the integer
/// square root.
pub proof fn lemma_isqrt_unique(n: nat, r: nat)
    requires
        r * r <= n,
        n < (r + 1) * (r + 1),
    ensures
        r == isqrt_spec(n),
{
    lemma_isqrt_bounds(n);
    let s = isqrt_spec(n);
    if r < s {
        assert((r + 1) * (r + 1) <= s * s) by (nonlinear_arith)
            requires r + 1 <= s;
        assert(false);
    }
    if s < r {
        assert((s + 1) * (s + 1) <= r * r) by (nonlinear_arith)
            requires s + 1 <= r;
        assert(false);
    }
}

/// The integer square root, by binary search.
fn isqrt(n: u64) -> (r: u64)
    requires
        n <= 10_000_000_000_000,
    ensures
        r == isqrt_spec(n as nat),
        (r as int) * (r as int) <= n as int,
        (n as int) < ((r as int) + 1) * ((r as int) + 1),
        r <= 4_000_000,
{
    let mut lo: u64 = 0;
    let mut hi: u64 = 4_000_000;
    proof {
        assert((4_000_000 as int) * (4_000_000 as int) == 16_000_000_000_000) by (nonlinear_arith);
    }
    while hi - lo > 1
        invariant
            0 <= lo < hi <= 4_000_000,
            lo * lo <= n,
            n < hi * hi,
        decreases hi - lo,
    {
        let mid: u64 = lo + (hi - lo) / 2;
        proof {
            assert((mid as int) * (mid as int) <= 16_000_000_000_000) by (nonlinear_arith)
                requires 0 <= mid <= 4_000_000;
        }
        if mid * mid <= n {
            lo = mid;
        } else {
            hi = mid;
        }
    }
    proof {
        assert(hi == lo + 1);
        lemma_isqrt_unique(n as nat, lo as nat);
    }
    lo
}

/// Clamp a coordinate into the range the line rasterizer accepts.
pub open spec fn clamp_line(v: int) -> int {
    if v < -1_000_000 {
        -1_000_000
    } else if v > 1_000_000 {
        1_000_000
    } else {
        v
    }
}

/// The arrowhead length for a stroke thickness: four thicknesses, at
/// least ten pixels.
pub open spec fn head_len(t: int) -> int {
    if 4 * t > 10 {
        4 * t
    } else {
        10
    }
}

/// The two base corners of an arrowhead: offset from the end point
/// back along the shaft by the head length and sideways along the
/// perpendicular by 0.4 of it, in floored integer arithmetic, clamped
/// into the rasterizer's range. Meaningful only for a non-degenerate
/// shaft.
pub open spec fn head_points(sx: int, sy: int, ex: int, ey: int, t: int) -> ((int, int), (int, int)) {
    let dx = ex - sx;
    let dy = ey - sy;
    let len = isqrt_spec((dx * dx + dy * dy) as nat) as int;
    let hl = head_len(t);
    let bx = (dx * hl) / len;
    let by = (dy * hl) / len;
    let ox = ((-dy) * (2 * hl)) / (5 * len);
    let oy = (dx * (2 * hl)) / (5 * len);
    (
        (clamp_line(ex - bx + ox), clamp_line(ey - by + oy)),
        (clamp_line(ex - bx - ox), clamp_line(ey - by - oy)),
    )
}

/// The buffer after drawing one annotation: an arrow draws its shaft
/// and, unless degenerate, the three segments of its head; a
/// rectangle draws its four edges; a text label draws nothing.
pub open spec fn draw_ann_spec(pix: Seq<Color>, w: int, a: AnnView) -> Seq<Color> {
    match a {
        AnnView::Arrow { start, end, color, thickness } => {
            let sx = start.x as int;
            let sy = start.y as int;
            let ex = end.x as int;
            let ey = end.y as int;
            let t = thickness as int;
            let shaft = draw_line_spec(pix, w, sx, sy, ex, ey, t, color);
            if sx == ex && sy == ey {
                shaft
            } else {
                let (p1, p2) = head_points(sx, sy, ex, ey, t);
                let h1 = draw_line_spec(shaft, w, ex, ey, p1.0, p1.1, t, color);
                let h2 = draw_line_spec(h1, w, ex, ey, p2.0, p2.1, t, color);
                draw_line_spec(h2, w, p1.0, p1.1, p2.0, p2.1, t, color)
            }
        },
        AnnView::Rectangle { min, max, color, thickness } => {
            let ax = min.x as int;
            let ay = min.y as int;
            let bx = max.x as int;
            let by = max.y as int;
            let t = thickness as int;
            let e1 = draw_line_spec(pix, w, ax, ay, bx, ay, t, color);
            let e2 = draw_line_spec(e1, w, bx, ay, bx, by, t, color);
            let e3 = draw_line_spec(e2, w, bx, by, ax, by, t, color);
            draw_line_spec(e3, w, ax, by, ax, ay, t, color)
        },
        AnnView::Text { .. } => pix,
    }
}

/// The buffer after drawing a whole annotation list in order (later
/// annotations draw on top; overlapping strokes overwrite).
pub open spec fn render_spec(pix: Seq<Color>, w: int, l: Seq<AnnView>) -> Seq<Color>
    decreases l.len(),
{
    if l.len() == 0 {
        pix
    } else {
        draw_ann_spec(render_spec(pix, w, l.drop_last()), w, l.last())
    }
}

/// Clamp a coordinate into the rasterizer's range.
fn clamp_l(v: i64) -> (r: i64)
    ensures
        r == clamp_line(v as int),
{
    if v < -1_000_000 {
        -1_000_000
    } else if v > 1_000_000 {
        1_000_000
    } else {
        v
    }
}

/// Draw one annotation into the buffer.
pub fn draw_ann(buf: &mut PixelBuf, a: &Annotation)
    requires
        old(buf).wf(),
        crate::model::ann_wf(a@),
    ensures
        final(buf).wf(),
        final(buf).width == old(buf).width,
        final(buf).height == old(buf).height,
        final(buf).pixels@ == draw_ann_spec(old(buf).pixels@, old(buf).width as int, a@),
{
    match a {
        Annotation::Arrow { start, end, color, thickness } => {
            let t = *thickness;
            draw_line(buf, start.x, start.y, end.x, end.y, t, *color);
            let dx: i64 = end.x - start.x;
            let dy: i64 = end.y - start.y;
            if dx != 0 || dy != 0 {
                proof {
                    assert(0 <= dx * dx <= 80_000_000_000 && 0 <= dy * dy <= 80_000_000_000)
                        by (nonlinear_arith)
                        requires -200_000 <= dx <= 200_000 && -200_000 <= dy <= 200_000;
                }
                proof {
                    assert(dx != 0 ==> dx * dx >= 1) by (nonlinear_arith);
                    assert(dy != 0 ==> dy * dy >= 1) by (nonlinear_arith);
                }
                let d2: u64 = (dx * dx + dy * dy) as u64;
                let len_u: u64 = isqrt(d2);
                proof {
                    if len_u == 0 {
                        assert(((len_u as int) + 1) * ((len_u as int) + 1) == 1)
                            by (nonlinear_arith)
                            requires len_u == 0;
                        assert((d2 as int) < 1);
                        assert(false);
                    }
                }
                let len: i64 = len_u as i64;
                let hl: i64 = if 4 * t > 10 {
                    4 * t
                } else {
                    10
                };
                proof {
                    assert(-8_000_000_000 <= dx * hl <= 8_000_000_000 && -8_000_000_000 <= dy * hl
                        <= 8_000_000_000) by (nonlinear_arith)
                        requires
                            -200_000 <= dx <= 200_000 && -200_000 <= dy <= 200_000 && 0 < hl
                                <= 40_000;
                }
                let bx: i64 = div_floor(dx * hl, len);
                let by: i64 = div_floor(dy * hl, len);
                proof {
                    assert(-16_000_000_000 <= (-dy) * (2 * hl) <= 16_000_000_000)
                        by (nonlinear_arith)
                        requires -200_000 <= dy <= 200_000 && 0 < 2 * hl <= 80_000;
                    assert(-16_000_000_000 <= dx * (2 * hl) <= 16_000_000_000)
                        by (nonlinear_arith)
                        requires -200_000 <= dx <= 200_000 && 0 < 2 * hl <= 80_000;
                }
                let ox: i64 = div_floor((-dy) * (2 * hl), 5 * len);
                let oy: i64 = div_floor(dx * (2 * hl), 5 * len);
                let p1x: i64 = clamp_l(end.x - bx + ox);
                let p1y: i64 = clamp_l(end.y - by + oy);
                let p2x: i64 = clamp_l(end.x - bx - ox);
                let p2y: i64 = clamp_l(end.y - by - oy);
                draw_line(buf, end.x, end.y, p1x, p1y, t, *color);
                draw_line(buf, end.x, end.y, p2x, p2y, t, *color);
                draw_line(buf, p1x, p1y, p2x, p2y, t, *color);
            }
        },
        Annotation::Rectangle { min, max, color, thickness } => {
            let t = *thickness;
            draw_line(buf, min.x, min.y, max.x, min.y, t, *color);
            draw_line(buf, max.x, min.y, max.x, max.y, t, *color);
            draw_line(buf, max.x, max.y, min.x, max.y, t, *color);
            draw_line(buf, min.x, max.y, min.x, min.y, t, *color);
        },
        Annotation::Text { .. } => {},
    }
}

/// Flatten the whole annotation list into the buffer, in z-order.
pub fn render(buf: &mut PixelBuf, list: &Vec<Annotation>)
    requires
        old(buf).wf(),
        crate::model::anns_wf(crate::model::anns_view(list@)),
    ensures
        final(buf).wf(),
        final(buf).width == old(buf).width,
        final(buf).height == old(buf).height,
        final(buf).pixels@ == render_spec(
            old(buf).pixels@,
            old(buf).width as int,
            crate::model::anns_view(list@),
        ),
{
    let ghost l = crate::model::anns_view(list@);
    let ghost pix0 = old(buf).pixels@;
    let ghost w_i = old(buf).width as int;
    let mut i: usize = 0;
    proof {
        assert(l.take(0) =~= Seq::<AnnView>::empty());
    }
    while i < list.len()
        invariant
            0 <= i <= list.len(),
            l == crate::model::anns_view(list@),
            l.len() == list@.len(),
            crate::model::anns_wf(l),
            buf.wf(),
            buf.width == old(buf).width,
            buf.height == old(buf).height,
            w_i == old(buf).width as int,
            pix0 == old(buf).pixels@,
            buf.pixels@ == render_spec(pix0, w_i, l.take(i as int)),
        decreases list.len() - i,
    {
        assert(l[i as int] == list@[i as int]@);
        draw_ann(buf, &list[i]);
        proof {
            let pre = l.take(i as int + 1);
            assert(pre.drop_last() =~= l.take(i as int));
            assert(pre.last() == l[i as int]);
        }
        i = i + 1;
    }
    proof {
        assert(l.take(list@.len() as int) =~= l);
    }
}

/// Whether `(px, py)` lies inside the axis-aligned bounding box of
/// the segment, expanded by half the stroke thickness on every side.
pub open spec fn seg_box(x0: int, y0: int, x1: int, y1: int, t: int, px: int, py: int) -> bool {
    let lx = if x0 <= x1 {
        x0
    } else {
        x1
    };
    let hx = if x0 <= x1 {
        x1
    } else {
        x0
    };
    let ly = if y0 <= y1 {
        y0
    } else {
        y1
    };
    let hy = if y0 <= y1 {
        y1
    } else {
        y0
    };
    lx - t / 2 <= px <= hx + t / 2 && ly - t / 2 <= py <= hy + t / 2
}

/// Every pixel a thick segment covers lies inside the segment's
/// expanded bounding box: every sample point sits between the two
/// endpoints, and a stamped block reaches at most half the thickness
/// beyond it.
pub proof fn lemma_covered_within_box(x0: int, y0: int, x1: int, y1: int, t: int, px: int, py: int)
    requires
        t >= 0,
        covered(x0, y0, x1, y1, t, px, py),
    ensures
        seg_box(x0, y0, x1, y1, t, px, py),
{
    let denom = line_denom(x0, y0, x1, y1);
    let steps = line_steps(x0, y0, x1, y1);
    let i = choose|i: int|
        0 <= i <= steps && #[trigger] in_square(
            sample_x(x0, x1, i, denom),
            sample_x(y0, y1, i, denom),
            t / 2,
            px,
            py,
        );
    if steps == 0 {
        assert(i == 0);
    }
    assert(0 <= i <= denom);
    lemma_sample_in_span(x1 - x0, i, denom);
    lemma_sample_in_span(y1 - y0, i, denom);
    lemma_div_pos_is_pos(t, 2);
}

/// The segment leaves every pixel outside its expanded bounding box
/// unchanged.
pub proof fn lemma_draw_line_localized(
    pix: Seq<Color>,
    w: int,
    x0: int,
    y0: int,
    x1: int,
    y1: int,
    t: int,
    c: Color,
    k: int,
)
    requires
        0 <= k < pix.len(),
        t >= 0,
        !seg_box(x0, y0, x1, y1, t, k % w, k / w),
    ensures
        draw_line_spec(pix, w, x0, y0, x1, y1, t, c)[k] == pix[k],
{
    if covered(x0, y0, x1, y1, t, k % w, k / w) {
        lemma_covered_within_box(x0, y0, x1, y1, t, k % w, k / w);
    }
}

/// Along a horizontal segment every pixel of the stroke capsule is
/// covered: any point whose column lies between the endpoints and
/// whose row is within half the thickness of the segment's row takes
/// the stroke color.
pub proof fn lemma_horizontal_covered(x0: int, y0: int, x1: int, t: int, px: int, py: int)
    requires
        t >= 0,
        x0 <= px <= x1,
        iabs(py - y0) <= t / 2,
    ensures
        covered(x0, y0, x1, y0, t, px, py),
{
    let dx = x1 - x0;
    let denom = line_denom(x0, y0, x1, y0);
    let steps = line_steps(x0, y0, x1, y0);
    lemma_div_pos_is_pos(t, 2);
    assert(0int / denom == 0);
    if dx == 0 {
        assert(sample_x(x0, x1, 0, denom) == x0 + 0int / denom);
        assert(sample_x(y0, y0, 0, denom) == y0 + 0int / denom);
        assert(in_square(sample_x(x0, x1, 0, denom), sample_x(y0, y0, 0, denom), t / 2, px, py));
    } else {
        let i = 2 * (px - x0);
        assert(steps == 2 * dx);
        assert(denom == 2 * dx);
        assert(0 <= i <= steps);
        assert(dx * i == (2 * dx) * (px - x0)) by (nonlinear_arith)
            requires i == 2 * (px - x0);
        lemma_div_multiples_vanish(px - x0, 2 * dx);
        assert((dx * i) / denom == px - x0);
        assert(sample_x(x0, x1, i, denom) == px);
        assert(sample_x(y0, y0, i, denom) == y0 + 0int / denom);
        assert(in_square(sample_x(x0, x1, i, denom), sample_x(y0, y0, i, denom), t / 2, px, py));
    }
}

/// Rendering an arrow is local to its stroke: a pixel outside the
/// expanded bounding boxes of the shaft and of the three head
/// segments keeps its value — along a horizontal shaft, everything
/// away from the stroke and the head halo stays background.
pub proof fn lemma_arrow_localized(
    pix: Seq<Color>,
    w: int,
    start: Pt,
    end: Pt,
    color: Color,
    thickness: i64,
    k: int,
)
    requires
        0 <= k < pix.len(),
        0 <= thickness,
        !seg_box(
            start.x as int,
            start.y as int,
            end.x as int,
            end.y as int,
            thickness as int,
            k % w,
            k / w,
        ),
        ({
            let (p1, p2) = head_points(
                start.x as int,
                start.y as int,
                end.x as int,
                end.y as int,
                thickness as int,
            );
            &&& !seg_box(end.x as int, end.y as int, p1.0, p1.1, thickness as int, k % w, k / w)
            &&& !seg_box(end.x as int, end.y as int, p2.0, p2.1, thickness as int, k % w, k / w)
            &&& !seg_box(p1.0, p1.1, p2.0, p2.1, thickness as int, k % w, k / w)
        }),
    ensures
        draw_ann_spec(pix, w, AnnView::Arrow { start, end, color, thickness })[k] == pix[k],
{
    let sx = start.x as int;
    let sy = start.y as int;
    let ex = end.x as int;
    let ey = end.y as int;
    let t = thickness as int;
    let shaft = draw_line_spec(pix, w, sx, sy, ex, ey, t, color);
    lemma_draw_line_localized(pix, w, sx, sy, ex, ey, t, color, k);
    if !(sx == ex && sy == ey) {
        let (p1, p2) = head_points(sx, sy, ex, ey, t);
        let h1 = draw_line_spec(shaft, w, ex, ey, p1.0, p1.1, t, color);
        let h2 = draw_line_spec(h1, w, ex, ey, p2.0, p2.1, t, color);
        lemma_draw_line_localized(shaft, w, ex, ey, p1.0, p1.1, t, color, k);
        lemma_draw_line_localized(h1, w, ex, ey, p2.0, p2.1, t, color, k);
        lemma_draw_line_localized(h2, w, p1.0, p1.1, p2.0, p2.1, t, color, k);
    }
}

} // verus!
