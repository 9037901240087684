//! Hit-testing: which annotation, if any, lies under a view-space
//! query point.
//!
//! Every containment test happens in fine view units (view pixels
//! scaled by 200), after mapping the stored image-space geometry
//! through the current transform, so the tests are exact integer
//! arithmetic:
//! - an arrow is hit when the distance from the query point to its
//!   segment is below the stroke thickness scaled by zoom plus a fixed
//!   8-view-pixel margin (a capsule test, compared by squared
//!   distances);
//! - a rectangle is hit on its stroke border only: inside the border
//!   expanded by the same margin but not inside the border shrunk by
//!   it;
//! - a text label is hit inside an approximate bounding box: 0.6 view
//!   pixels per byte of content per font-size unit wide, 1.2 font
//!   sizes tall, expanded by 4 view pixels.
//!
//! Candidates are scanned from the end of the list (topmost first) and
//! the first match wins.

use vstd::prelude::*;
use crate::model::{Annotation, AnnView, Pt, MAX_COORD};
use crate::geom::{fine_of_image, pan_ok, zoom_ok, view_from_image};

verus! {

/// Whether the squared distance from `q` to the segment `a`-`b` (all
/// in fine view units) is less than `r` squared: the thickness-aware
/// capsule test, by projection onto the segment with the parameter
/// clamped to the segment's ends.
pub open spec fn seg_hit(qx: int, qy: int, ax: int, ay: int, bx: int, by: int, r: int) -> bool {
    let abx = bx - ax;
    let aby = by - ay;
    let apx = qx - ax;
    let apy = qy - ay;
    let bpx = qx - bx;
    let bpy = qy - by;
    let d = abx * abx + aby * aby;
    let n = apx * abx + apy * aby;
    if d == 0 || n <= 0 {
        apx * apx + apy * apy < r * r
    } else if n >= d {
        bpx * bpx + bpy * bpy < r * r
    } else {
        (apx * apx + apy * apy) * d - n * n < r * r * d
    }
}

/// Whether `q` lies in the closed axis-aligned box spanned by the two
/// corners `a`, `b` (in either order), grown by `m` on every side
/// (shrunk, if `m` is negative; an over-shrunk box contains nothing).
pub open spec fn box_hit(qx: int, qy: int, ax: int, ay: int, bx: int, by: int, m: int) -> bool {
    let lx = if ax <= bx { ax } else { bx };
    let hx = if ax <= bx { bx } else { ax };
    let ly = if ay <= by { ay } else { by };
    let hy = if ay <= by { by } else { ay };
    lx - m <= qx <= hx + m && ly - m <= qy <= hy + m
}

/// Whether `q` lies in the approximate box of a text label whose
/// anchor has fine view coordinates `(sx, sy)`: `len * fs * 0.6` view
/// pixels wide and `fs * 1.2` tall at font size `fs` and zoom `z`,
/// expanded by 4 view pixels. Scaling both sides by 5 keeps the
/// comparison exact.
pub open spec fn text_hit(qx: int, qy: int, sx: int, sy: int, len: int, fs: int, z: int) -> bool {
    qx >= sx - 800 && (qx - sx - 800) * 5 <= 6 * len * fs * z
        && qy >= sy - 800 && (qy - sy - 800) * 5 <= 12 * fs * z
}

/// Whether the annotation `a` is under the view-space query point `q`
/// (whole view pixels) for the given transform.
pub open spec fn ann_hit(a: AnnView, q: Pt, pan: Pt, center: Pt, w: int, h: int, z: int) -> bool {
    let qx = 200 * q.x;
    let qy = 200 * q.y;
    match a {
        AnnView::Arrow { start, end, thickness, .. } => seg_hit(
            qx,
            qy,
            fine_of_image(start.x as int, pan.x as int, center.x as int, w, z),
            fine_of_image(start.y as int, pan.y as int, center.y as int, h, z),
            fine_of_image(end.x as int, pan.x as int, center.x as int, w, z),
            fine_of_image(end.y as int, pan.y as int, center.y as int, h, z),
            2 * thickness * z + 1600,
        ),
        AnnView::Rectangle { min, max, thickness, .. } => {
            let ax = fine_of_image(min.x as int, pan.x as int, center.x as int, w, z);
            let ay = fine_of_image(min.y as int, pan.y as int, center.y as int, h, z);
            let bx = fine_of_image(max.x as int, pan.x as int, center.x as int, w, z);
            let by = fine_of_image(max.y as int, pan.y as int, center.y as int, h, z);
            let m = 2 * thickness * z + 1600;
            box_hit(qx, qy, ax, ay, bx, by, m) && !box_hit(qx, qy, ax, ay, bx, by, -m)
        },
        AnnView::Text { pos, content, font_size, .. } => text_hit(
            qx,
            qy,
            fine_of_image(pos.x as int, pan.x as int, center.x as int, w, z),
            fine_of_image(pos.y as int, pan.y as int, center.y as int, h, z),
            content.len() as int,
            font_size as int,
            z,
        ),
    }
}

/// The topmost (highest-index) annotation under the query point.
pub open spec fn top_hit(l: Seq<AnnView>, q: Pt, pan: Pt, center: Pt, w: int, h: int, z: int) -> Option<int>
    decreases l.len(),
{
    if l.len() == 0 {
        None
    } else if ann_hit(l.last(), q, pan, center, w, h, z) {
        Some(l.len() - 1)
    } else {
        top_hit(l.drop_last(), q, pan, center, w, h, z)
    }
}

/// Exact product of two bounded 128-bit integers.
fn mul128(a: i128, b: i128) -> (r: i128)
    requires
        -9_223_372_036_854_775_808 <= a <= 9_223_372_036_854_775_808,
        -9_223_372_036_854_775_808 <= b <= 9_223_372_036_854_775_808,
    ensures
        r == a * b,
{
    proof {
        assert(a * b <= 0x4000_0000_0000_0000_0000_0000_0000_0000
            && a * b >= -0x4000_0000_0000_0000_0000_0000_0000_0000) by (nonlinear_arith)
            requires
                -9_223_372_036_854_775_808 <= a <= 9_223_372_036_854_775_808
                    && -9_223_372_036_854_775_808 <= b <= 9_223_372_036_854_775_808;
    }
    a * b
}

/// The capsule test, executed exactly over 128-bit intermediates.
fn seg_hit_exec(qx: i64, qy: i64, ax: i64, ay: i64, bx: i64, by: i64, r: i64) -> (hit: bool)
    requires
        -1_000_000_000 <= qx <= 1_000_000_000,
        -1_000_000_000 <= qy <= 1_000_000_000,
        -1_000_000_000 <= ax <= 1_000_000_000,
        -1_000_000_000 <= ay <= 1_000_000_000,
        -1_000_000_000 <= bx <= 1_000_000_000,
        -1_000_000_000 <= by <= 1_000_000_000,
        0 <= r <= 100_000_000,
    ensures
        hit == seg_hit(qx as int, qy as int, ax as int, ay as int, bx as int, by as int, r as int),
{
    let abx: i128 = bx as i128 - ax as i128;
    let aby: i128 = by as i128 - ay as i128;
    let apx: i128 = qx as i128 - ax as i128;
    let apy: i128 = qy as i128 - ay as i128;
    let bpx: i128 = qx as i128 - bx as i128;
    let bpy: i128 = qy as i128 - by as i128;
    proof {
        lemma_sq_bound(abx as int);
        lemma_sq_bound(aby as int);
        lemma_sq_bound(apx as int);
        lemma_sq_bound(apy as int);
        lemma_sq_bound(bpx as int);
        lemma_sq_bound(bpy as int);
        lemma_prod_bound(apx as int, abx as int);
        lemma_prod_bound(apy as int, aby as int);
    }
    let d: i128 = mul128(abx, abx) + mul128(aby, aby);
    let n: i128 = mul128(apx, abx) + mul128(apy, aby);
    let rr: i128 = mul128(r as i128, r as i128);
    proof {
        assert(0 <= (r as int) * (r as int) <= 10_000_000_000_000_000) by (nonlinear_arith)
            requires 0 <= r <= 100_000_000;
    }
    if d == 0 || n <= 0 {
        mul128(apx, apx) + mul128(apy, apy) < rr
    } else if n >= d {
        mul128(bpx, bpx) + mul128(bpy, bpy) < rr
    } else {
        let ap2: i128 = mul128(apx, apx) + mul128(apy, apy);
        proof {
            assert(0 <= (ap2 as int) * (d as int)
                <= 64_000_000_000_000_000_000_000_000_000_000_000_000) by (nonlinear_arith)
                requires
                    0 <= ap2 <= 8_000_000_000_000_000_000 && 0 <= d
                        <= 8_000_000_000_000_000_000;
            assert(0 <= (n as int) * (n as int)
                <= 64_000_000_000_000_000_000_000_000_000_000_000_000) by (nonlinear_arith)
                requires 0 < n <= 8_000_000_000_000_000_000;
            assert(0 <= (rr as int) * (d as int)
                <= 64_000_000_000_000_000_000_000_000_000_000_000_000) by (nonlinear_arith)
                requires
                    0 <= rr <= 10_000_000_000_000_000 && 0 <= d
                        <= 8_000_000_000_000_000_000;
        }
        mul128(ap2, d) - mul128(n, n) < mul128(rr, d)
    }
}

/// The square of a value of magnitude at most two billion.
proof fn lemma_sq_bound(a: int)
    requires
        -2_000_000_000 <= a <= 2_000_000_000,
    ensures
        0 <= a * a <= 4_000_000_000_000_000_000,
{
    assert(0 <= a * a <= 4_000_000_000_000_000_000) by (nonlinear_arith)
        requires -2_000_000_000 <= a <= 2_000_000_000;
}

/// The product of two values of magnitude at most two billion.
proof fn lemma_prod_bound(a: int, b: int)
    requires
        -2_000_000_000 <= a <= 2_000_000_000,
        -2_000_000_000 <= b <= 2_000_000_000,
    ensures
        -4_000_000_000_000_000_000 <= a * b <= 4_000_000_000_000_000_000,
{
    assert(-4_000_000_000_000_000_000 <= a * b <= 4_000_000_000_000_000_000)
        by (nonlinear_arith)
        requires
            -2_000_000_000 <= a <= 2_000_000_000 && -2_000_000_000 <= b
                <= 2_000_000_000;
}

/// Whether one annotation is under the query point, executed exactly.
pub fn ann_hit_exec(a: &Annotation, q: Pt, pan: Pt, center: Pt, w: i64, h: i64, z: i64) -> (hit: bool)
    requires
        crate::model::ann_wf(a@),
        pan_ok(q),
        pan_ok(pan),
        pan_ok(center),
        0 <= w <= MAX_COORD,
        0 <= h <= MAX_COORD,
        zoom_ok(z as int),
    ensures
        hit == ann_hit(a@, q, pan, center, w as int, h as int, z as int),
{
    let qx: i64 = 200 * q.x;
    let qy: i64 = 200 * q.y;
    match a {
        Annotation::Arrow { start, end, thickness, .. } => {
            let s = view_from_image(*start, pan, center, w, h, z);
            let e = view_from_image(*end, pan, center, w, h, z);
            proof {
                assert(0 <= 2 * (*thickness as int) * (z as int) <= 20_000_000) by (nonlinear_arith)
                    requires 0 <= *thickness <= 10_000 && 0 < z <= 1000;
            }
            let r: i64 = 2 * *thickness * z + 1600;
            seg_hit_exec(qx, qy, s.x, s.y, e.x, e.y, r)
        },
        Annotation::Rectangle { min, max, thickness, .. } => {
            let amin = view_from_image(*min, pan, center, w, h, z);
            let amax = view_from_image(*max, pan, center, w, h, z);
            proof {
                assert(0 <= 2 * (*thickness as int) * (z as int) <= 20_000_000) by (nonlinear_arith)
                    requires 0 <= *thickness <= 10_000 && 0 < z <= 1000;
            }
            let m: i64 = 2 * *thickness * z + 1600;
            let lx: i64 = if amin.x <= amax.x { amin.x } else { amax.x };
            let hx: i64 = if amin.x <= amax.x { amax.x } else { amin.x };
            let ly: i64 = if amin.y <= amax.y { amin.y } else { amax.y };
            let hy: i64 = if amin.y <= amax.y { amax.y } else { amin.y };
            let outer = lx - m <= qx && qx <= hx + m && ly - m <= qy && qy <= hy + m;
            let inner = lx + m <= qx && qx <= hx - m && ly + m <= qy && qy <= hy - m;
            outer && !inner
        },
        Annotation::Text { pos, content, font_size, .. } => {
            let s = view_from_image(*pos, pan, center, w, h, z);
            let len: i64 = content.len() as i64;
            proof {
                assert(0 <= 6 * (len as int) * (*font_size as int) <= 600_000_000)
                    by (nonlinear_arith)
                    requires 0 <= len <= 10_000 && 1 <= *font_size <= 10_000;
            }
            let wterm: i128 = mul128(mul128(6 * len as i128, *font_size as i128), z as i128);
            let hterm: i128 = mul128(12 * *font_size as i128, z as i128);
            let okx = qx >= s.x - 800 && (qx as i128 - s.x as i128 - 800) * 5 <= wterm;
            let oky = qy >= s.y - 800 && (qy as i128 - s.y as i128 - 800) * 5 <= hterm;
            okx && oky
        },
    }
}

/// The topmost annotation in `list` under the view-space point `q`,
/// or `None`: candidates are scanned from the last (top of z-order)
/// to the first, and the first match wins.
pub fn hit_test(list: &Vec<Annotation>, q: Pt, pan: Pt, center: Pt, w: i64, h: i64, z: i64) -> (r: Option<usize>)
    requires
        crate::model::anns_wf(crate::model::anns_view(list@)),
        pan_ok(q),
        pan_ok(pan),
        pan_ok(center),
        0 <= w <= MAX_COORD,
        0 <= h <= MAX_COORD,
        zoom_ok(z as int),
    ensures
        ({
            let th = top_hit(crate::model::anns_view(list@), q, pan, center, w as int, h as int, z as int);
            match r {
                Some(i) => th == Some(i as int),
                None => th is None,
            }
        }),
{
    let ghost l = crate::model::anns_view(list@);
    let mut i: usize = list.len();
    proof {
        assert(l.take(i as int) =~= l);
    }
    while i > 0
        invariant
            0 <= i <= list.len(),
            l == crate::model::anns_view(list@),
            l.len() == list@.len(),
            crate::model::anns_wf(l),
            pan_ok(q),
            pan_ok(pan),
            pan_ok(center),
            0 <= w <= MAX_COORD,
            0 <= h <= MAX_COORD,
            zoom_ok(z as int),
            top_hit(l, q, pan, center, w as int, h as int, z as int)
                == top_hit(l.take(i as int), q, pan, center, w as int, h as int, z as int),
        decreases i,
    {
        i = i - 1;
        assert(l[i as int] == list@[i as int]@);
        let hit = ann_hit_exec(&list[i], q, pan, center, w, h, z);
        proof {
            let pre = l.take(i as int + 1);
            assert(pre.last() == l[i as int]);
            assert(pre.drop_last() =~= l.take(i as int));
        }
        if hit {
            return Some(i);
        }
    }
    proof {
        assert(l.take(0) =~= Seq::<AnnView>::empty());
    }
    None
}

/// Z-order law: if the annotation at index `j` is under the query
/// point and nothing above it is, the hit-test answers exactly `j` —
/// in particular, for two overlapping annotations at indices `i < j`
/// it answers the topmost, `j`.
pub proof fn lemma_top_hit_topmost(l: Seq<AnnView>, q: Pt, pan: Pt, center: Pt, w: int, h: int, z: int, j: int)
    requires
        0 <= j < l.len(),
        ann_hit(l[j], q, pan, center, w, h, z),
        forall|k: int| j < k < l.len() ==> !ann_hit(#[trigger] l[k], q, pan, center, w, h, z),
    ensures
        top_hit(l, q, pan, center, w, h, z) == Some(j),
    decreases l.len(),
{
    if j == l.len() - 1 {
        assert(l.last() == l[j]);
    } else {
        assert(!ann_hit(l.last(), q, pan, center, w, h, z));
        assert(l.drop_last()[j] == l[j]);
        assert forall|k: int| j < k < l.drop_last().len() implies !ann_hit(
            #[trigger] l.drop_last()[k],
            q,
            pan,
            center,
            w,
            h,
            z,
        ) by {
            assert(l.drop_last()[k] == l[k]);
        }
        lemma_top_hit_topmost(l.drop_last(), q, pan, center, w, h, z, j);
    }
}

} // verus!
