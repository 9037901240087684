//! Data model: points, colors, annotation variants, and their
//! well-formedness.
//!
//! Coordinates are image-space pixels (`i64`), invariant under pan/zoom.
//! Stroke colors are 8-bit RGBA channels. Text content is held as its
//! UTF-8 bytes so the engine can reason about it as plain values.

use vstd::prelude::*;

verus! {

/// Largest magnitude of any stored image-space coordinate. Keeping
/// coordinates inside this bound lets every transform and hit-test be
/// computed exactly without overflow.
pub const MAX_COORD: i64 = 100_000;

/// Largest stroke thickness the engine accepts.
pub const MAX_THICKNESS: i64 = 10_000;

/// Largest font size the engine accepts.
pub const MAX_FONT: i64 = 10_000;

/// Longest text content, in bytes, the engine accepts.
pub const MAX_TEXT_LEN: usize = 10_000;

/// A 2D point or vector with integer coordinates.
#[derive(Clone, Copy, Debug, PartialEq, Eq, Structural)]
pub struct Pt {
    pub x: i64,
    pub y: i64,
}

/// An RGBA stroke color with 8-bit channels.
#[derive(Clone, Copy, Debug, PartialEq, Eq, Structural)]
pub struct Color {
    pub r: u8,
    pub g: u8,
    pub b: u8,
    pub a: u8,
}

impl Default for Color {
    /// The default stroke color is opaque red.
    fn default() -> (c: Color)
        ensures
            c == (Color { r: 255, g: 0, b: 0, a: 255 }),
    {
        Color { r: 255, g: 0, b: 0, a: 255 }
    }
}

/// One markup primitive, in image-space coordinates.
#[derive(Clone, Debug, PartialEq, Eq)]
pub enum Annotation {
    Arrow { start: Pt, end: Pt, color: Color, thickness: i64 },
    Rectangle { min: Pt, max: Pt, color: Color, thickness: i64 },
    Text { pos: Pt, content: Vec<u8>, font_size: i64, color: Color },
}

/// The mathematical value of an annotation: the same shape as
/// `Annotation` with the text content abstracted to a byte sequence.
pub enum AnnView {
    Arrow { start: Pt, end: Pt, color: Color, thickness: i64 },
    Rectangle { min: Pt, max: Pt, color: Color, thickness: i64 },
    Text { pos: Pt, content: Seq<u8>, font_size: i64, color: Color },
}

impl View for Annotation {
    type V = AnnView;

    open spec fn view(&self) -> AnnView {
        match self {
            Annotation::Arrow { start, end, color, thickness } => AnnView::Arrow {
                start: *start,
                end: *end,
                color: *color,
                thickness: *thickness,
            },
            Annotation::Rectangle { min, max, color, thickness } => AnnView::Rectangle {
                min: *min,
                max: *max,
                color: *color,
                thickness: *thickness,
            },
            Annotation::Text { pos, content, font_size, color } => AnnView::Text {
                pos: *pos,
                content: content@,
                font_size: *font_size,
                color: *color,
            },
        }
    }
}

/// The ordered list of annotation values held by a `Vec<Annotation>`.
pub open spec fn anns_view(v: Seq<Annotation>) -> Seq<AnnView> {
    v.map_values(|a: Annotation| a@)
}

pub open spec fn coord_ok(p: Pt) -> bool {
    -MAX_COORD <= p.x <= MAX_COORD && -MAX_COORD <= p.y <= MAX_COORD
}

/// Well-formedness of a single annotation: geometry inside the
/// supported canvas, style values inside the supported ranges.
/// Text content may be empty here: emptiness is only checked when
/// interactive text entry commits, and a sidecar file is loaded as
/// literal without re-validation.
pub open spec fn ann_wf(a: AnnView) -> bool {
    match a {
        AnnView::Arrow { start, end, thickness, .. } => coord_ok(start) && coord_ok(end)
            && 0 <= thickness <= MAX_THICKNESS,
        AnnView::Rectangle { min, max, thickness, .. } => coord_ok(min) && coord_ok(max)
            && 0 <= thickness <= MAX_THICKNESS,
        AnnView::Text { pos, content, font_size, .. } => coord_ok(pos)
            && 1 <= font_size <= MAX_FONT && content.len() <= MAX_TEXT_LEN,
    }
}

/// Well-formedness of a whole annotation list.
pub open spec fn anns_wf(l: Seq<AnnView>) -> bool {
    forall|i: int| 0 <= i < l.len() ==> ann_wf(#[trigger] l[i])
}

/// Clamp an image-space coordinate to the supported canvas.
pub open spec fn clamp_coord(v: int) -> i64 {
    if v < -MAX_COORD {
        (-MAX_COORD) as i64
    } else if v > MAX_COORD {
        MAX_COORD
    } else {
        v as i64
    }
}

pub open spec fn translate_point(p: Pt, dx: int, dy: int) -> Pt {
    Pt { x: clamp_coord(p.x + dx), y: clamp_coord(p.y + dy) }
}

/// Translate one annotation by an image-space delta, clamping every
/// coordinate to the supported canvas; style is unchanged.
pub open spec fn translate_ann(a: AnnView, dx: int, dy: int) -> AnnView {
    match a {
        AnnView::Arrow { start, end, color, thickness } => AnnView::Arrow {
            start: translate_point(start, dx, dy),
            end: translate_point(end, dx, dy),
            color,
            thickness,
        },
        AnnView::Rectangle { min, max, color, thickness } => AnnView::Rectangle {
            min: translate_point(min, dx, dy),
            max: translate_point(max, dx, dy),
            color,
            thickness,
        },
        AnnView::Text { pos, content, font_size, color } => AnnView::Text {
            pos: translate_point(pos, dx, dy),
            content,
            font_size,
            color,
        },
    }
}

} // verus!
