//! Image/view coordinate transform under pan and zoom.
//!
//! The zoom factor is a whole number of percent (`100` is 1:1), clamped
//! to `[ZOOM_MIN, ZOOM_MAX]`. The pan offset and viewport center are
//! whole view pixels. A view-space position is represented exactly in
//! "fine" units: view pixels scaled by 200, so that centering on half
//! the image size (a factor of 2) and the percent zoom (a factor of
//! 100) never need fractions:
//!
//! `fine(p) = 200*(center + pan) + (2*p - size) * zoom`
//!
//! which is exactly `200 * (center + pan + (p - size/2) * zoom/100)`.
//! The inverse maps a fine view coordinate back to an image pixel; on
//! points produced by the forward map every division is exact, so the
//! two maps are exact inverses (`lemma_transform_round_trip`).

use vstd::prelude::*;
use vstd::arithmetic::div_mod::{lemma_div_multiples_vanish, lemma_fundamental_div_mod};
use crate::model::Pt;
use crate::model::MAX_COORD;

verus! {

/// Smallest zoom, in percent (0.1x).
pub const ZOOM_MIN: i64 = 10;

/// Largest zoom, in percent (10x).
pub const ZOOM_MAX: i64 = 1000;

/// Largest magnitude of a pan offset, viewport-center or pointer
/// coordinate, in view pixels.
pub const MAX_PAN: i64 = 1_000_000;

pub open spec fn zoom_ok(z: int) -> bool {
    ZOOM_MIN <= z <= ZOOM_MAX
}

pub open spec fn pan_ok(p: Pt) -> bool {
    -MAX_PAN <= p.x <= MAX_PAN && -MAX_PAN <= p.y <= MAX_PAN
}

/// The exact fine view coordinate (view pixels times 200) of image
/// coordinate `p`, along one axis.
pub open spec fn fine_of_image(p: int, pan: int, center: int, size: int, z: int) -> int {
    200 * (center + pan) + (2 * p - size) * z
}

/// The image coordinate of fine view coordinate `vf`, along one axis,
/// rounded toward negative infinity.
pub open spec fn image_of_fine(vf: int, pan: int, center: int, size: int, z: int) -> int {
    ((vf - 200 * (center + pan)) / z + size) / 2
}

/// Floor division of `a` by a positive divisor, with the bounds a
/// caller needs to keep results in range.
pub fn div_floor(a: i64, b: i64) -> (q: i64)
    requires
        1 <= b,
        -4_000_000_000_000_000 <= a <= 4_000_000_000_000_000,
    ensures
        q == a as int / b as int,
        a >= 0 ==> 0 <= q <= a,
        a < 0 ==> a <= q <= 0,
{
    proof {
        lemma_div_floor_bounds(a as int, b as int);
    }
    match a.checked_div_euclid(b) {
        Some(q) => q,
        None => 0,
    }
}

/// Floor division by a positive divisor moves a value toward zero:
/// the quotient keeps the sign of `a` and never exceeds it in
/// magnitude.
pub proof fn lemma_div_floor_bounds(a: int, b: int)
    requires
        1 <= b,
    ensures
        a >= 0 ==> 0 <= a / b <= a,
        a < 0 ==> a <= a / b <= 0,
{
    lemma_fundamental_div_mod(a, b);
    let q = a / b;
    let r = a % b;
    assert(0 <= r < b);
    if a >= 0 {
        if q < 0 {
            assert(b * q <= q) by (nonlinear_arith)
                requires b >= 1 && q < 0;
            assert(false);
        }
        assert(q <= b * q) by (nonlinear_arith)
            requires b >= 1 && q >= 0;
    } else {
        if q > 0 {
            assert(b * q >= q) by (nonlinear_arith)
                requires b >= 1 && q > 0;
            assert(false);
        }
        // a = b*q + r with 0 <= r < b; if q < a then b*q + r < a.
        if q < a {
            assert(b * q + (b - 1) < a) by (nonlinear_arith)
                requires b >= 1 && q < a && q <= 0 && a < 0;
            assert(false);
        }
    }
}

/// Convert an image-space point to its exact fine view coordinates
/// under the given pan, zoom, viewport center and image size.
pub fn view_from_image(p: Pt, pan: Pt, center: Pt, w: i64, h: i64, z: i64) -> (vf: Pt)
    requires
        crate::model::coord_ok(p),
        pan_ok(pan),
        pan_ok(center),
        0 <= w <= MAX_COORD,
        0 <= h <= MAX_COORD,
        zoom_ok(z as int),
    ensures
        vf.x == fine_of_image(p.x as int, pan.x as int, center.x as int, w as int, z as int),
        vf.y == fine_of_image(p.y as int, pan.y as int, center.y as int, h as int, z as int),
        -1_000_000_000 <= vf.x <= 1_000_000_000,
        -1_000_000_000 <= vf.y <= 1_000_000_000,
{
    proof {
        assert(-400_000_000 <= (2 * p.x - w) * z <= 400_000_000) by (nonlinear_arith)
            requires -300_000 <= 2 * p.x - w <= 300_000 && 0 < z <= 1000;
        assert(-400_000_000 <= (2 * p.y - h) * z <= 400_000_000) by (nonlinear_arith)
            requires -300_000 <= 2 * p.y - h <= 300_000 && 0 < z <= 1000;
    }
    let vx: i64 = 200 * (center.x + pan.x) + (2 * p.x - w) * z;
    let vy: i64 = 200 * (center.y + pan.y) + (2 * p.y - h) * z;
    Pt { x: vx, y: vy }
}

/// Convert a fine view coordinate back to an image-space point,
/// rounding each axis toward negative infinity.
pub fn image_from_view_fine(vf: Pt, pan: Pt, center: Pt, w: i64, h: i64, z: i64) -> (p: Pt)
    requires
        -2_000_000_000 <= vf.x <= 2_000_000_000,
        -2_000_000_000 <= vf.y <= 2_000_000_000,
        pan_ok(pan),
        pan_ok(center),
        0 <= w <= MAX_COORD,
        0 <= h <= MAX_COORD,
        zoom_ok(z as int),
    ensures
        p.x == image_of_fine(vf.x as int, pan.x as int, center.x as int, w as int, z as int),
        p.y == image_of_fine(vf.y as int, pan.y as int, center.y as int, h as int, z as int),
{
    let rx: i64 = vf.x - 200 * (center.x + pan.x);
    let ry: i64 = vf.y - 200 * (center.y + pan.y);
    let qx: i64 = div_floor(rx, z);
    let qy: i64 = div_floor(ry, z);
    let px: i64 = div_floor(qx + w, 2);
    let py: i64 = div_floor(qy + h, 2);
    Pt { x: px, y: py }
}

/// Convert a pointer position in whole view pixels to image space.
pub fn screen_to_image(v: Pt, pan: Pt, center: Pt, w: i64, h: i64, z: i64) -> (p: Pt)
    requires
        pan_ok(v),
        pan_ok(pan),
        pan_ok(center),
        0 <= w <= MAX_COORD,
        0 <= h <= MAX_COORD,
        zoom_ok(z as int),
    ensures
        p.x == image_of_fine(200 * v.x, pan.x as int, center.x as int, w as int, z as int),
        p.y == image_of_fine(200 * v.y, pan.y as int, center.y as int, h as int, z as int),
{
    image_from_view_fine(Pt { x: 200 * v.x, y: 200 * v.y }, pan, center, w, h, z)
}

/// A view-space displacement scaled down by the zoom factor: the
/// image-space displacement of a drag, rounded toward negative
/// infinity.
pub open spec fn image_delta(d: int, z: int) -> int {
    (d * 100) / z
}

pub fn screen_delta_to_image(d: i64, z: i64) -> (r: i64)
    requires
        -MAX_PAN <= d <= MAX_PAN,
        zoom_ok(z as int),
    ensures
        r == image_delta(d as int, z as int),
        -100_000_000 <= r <= 100_000_000,
{
    div_floor(d * 100, z)
}

/// Clamp a zoom factor, in percent, to the configured bounds.
pub open spec fn clamp_zoom(v: int) -> int {
    if v < ZOOM_MIN as int {
        ZOOM_MIN as int
    } else if v > ZOOM_MAX as int {
        ZOOM_MAX as int
    } else {
        v
    }
}

/// Clamp a pan or view coordinate to the supported view range.
pub open spec fn clamp_pan(v: int) -> int {
    if v < -MAX_PAN {
        -MAX_PAN as int
    } else if v > MAX_PAN as int {
        MAX_PAN as int
    } else {
        v
    }
}

/// The two transforms are exact inverses: mapping an image point into
/// view space and back yields the same point, for every positive zoom.
pub proof fn lemma_transform_round_trip(p: int, pan: int, center: int, size: int, z: int)
    requires
        z >= 1,
    ensures
        image_of_fine(fine_of_image(p, pan, center, size, z), pan, center, size, z) == p,
{
    let rel = fine_of_image(p, pan, center, size, z) - 200 * (center + pan);
    assert(rel == z * (2 * p - size)) by (nonlinear_arith)
        requires rel == (2 * p - size) * z;
    lemma_div_multiples_vanish(2 * p - size, z);
    assert(rel / z == 2 * p - size);
    assert(rel / z + size == 2 * p);
    lemma_div_multiples_vanish(p, 2);
    assert((2 * p) / 2 == p);
}

/// Rational equality by cross-multiplication: `an/ad == bn/bd`.
pub open spec fn rat_eq(an: int, ad: int, bn: int, bd: int) -> bool {
    an * bd == bn * ad
}

/// The exact image coordinate of view coordinate `v` as a fraction
/// `(numerator, denominator)`, for a pan offset that is itself the
/// fraction `pan_num / pan_den`:
/// `(v - center - pan) * 100 / z + size / 2`.
pub open spec fn image_coord_frac(v: int, center: int, pan_num: int, pan_den: int, z: int, size: int) -> (int, int) {
    (200 * ((v - center) * pan_den - pan_num) + size * z * pan_den, 2 * z * pan_den)
}

/// Zoom-at-cursor invariant: changing the zoom from `z` to `z2` while
/// replacing the pan `pan` by the exact solution
/// `pan2 = (cursor - center) - (cursor - center - pan) * z2 / z`
/// (a fraction with denominator `z`) keeps the image point under the
/// cursor unchanged: the exact image coordinate of `cursor` is the
/// same rational number before and after.
pub proof fn lemma_zoom_at_cursor(cursor: int, center: int, pan: int, z: int, z2: int, size: int)
    requires
        z >= 1,
        z2 >= 1,
    ensures
        ({
            let rel = cursor - center - pan;
            let pan2_num = (cursor - center) * z - rel * z2;
            let before = image_coord_frac(cursor, center, pan, 1, z, size);
            let after = image_coord_frac(cursor, center, pan2_num, z, z2, size);
            before.1 > 0 && after.1 > 0 && rat_eq(before.0, before.1, after.0, after.1)
        }),
{
    let rel = cursor - center - pan;
    let pan2_num = (cursor - center) * z - rel * z2;
    let before = image_coord_frac(cursor, center, pan, 1, z, size);
    let after = image_coord_frac(cursor, center, pan2_num, z, z2, size);
    assert(before.1 == 2 * z * 1);
    assert(before.1 > 0);
    assert(after.1 > 0) by (nonlinear_arith)
        requires after.1 == 2 * z2 * z && z >= 1 && z2 >= 1;
    assert(before.0 * after.1 == after.0 * before.1) by (nonlinear_arith)
        requires
            before.0 == 200 * ((cursor - center) * 1 - pan) + size * z * 1,
            before.1 == 2 * z * 1,
            after.0 == 200 * ((cursor - center) * z - pan2_num) + size * z2 * z,
            after.1 == 2 * z2 * z,
            pan2_num == (cursor - center) * z - (cursor - center - pan) * z2;
}

} // verus!
