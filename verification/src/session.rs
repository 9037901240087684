//! The session: the annotation store, the undo/redo history, the
//! selection, the view transform, and the interaction state machine
//! that turns pointer-drag lifecycle events into create, move and
//! select operations.
//!
//! Every user-visible mutation that is not itself an undo or redo
//! pushes the pre-mutation snapshot onto the undo stack and clears the
//! redo stack. Handlers that commit a mutation return `true` so the
//! caller knows to persist the list.

use vstd::prelude::*;
use crate::model::{
    ann_wf,
    anns_view,
    anns_wf,
    clamp_coord,
    translate_ann,
    AnnView,
    Annotation,
    Color,
    Pt,
    MAX_COORD,
    MAX_FONT,
    MAX_TEXT_LEN,
    MAX_THICKNESS,
};
use crate::geom::{
    div_floor,
    image_delta,
    image_of_fine,
    pan_ok,
    screen_delta_to_image,
    screen_to_image,
    zoom_ok,
    MAX_PAN,
    ZOOM_MAX,
    ZOOM_MIN,
};
use crate::hit::{hit_test, top_hit};

verus! {

/// The user-selected drawing tool. It is an input to the interaction
/// state machine, not part of its own state.
#[derive(Clone, Copy, Debug, PartialEq, Eq, Structural)]
pub enum Tool {
    Arrow,
    Rectangle,
    Text,
    Select,
}

/// The drag-lifecycle state of the interaction state machine.
#[derive(Clone, Copy, Debug, PartialEq, Eq, Structural)]
pub enum DragState {
    Idle,
    Drawing { start: Pt },
    Moving { index: usize },
}

/// The snapshots held by a history stack, as sequences of annotation
/// values.
pub open spec fn snaps_view(v: Seq<Vec<Annotation>>) -> Seq<Seq<AnnView>> {
    v.map_values(|s: Vec<Annotation>| anns_view(s@))
}

pub open spec fn snaps_wf(v: Seq<Seq<AnnView>>) -> bool {
    forall|i: int| 0 <= i < v.len() ==> anns_wf(#[trigger] v[i])
}

/// The undo transition on the history model
/// `(undo stack, redo stack, current list)`: pop a snapshot, push the
/// current list onto redo, make the popped snapshot current; a no-op
/// on an empty undo stack.
pub open spec fn undo_step(u: Seq<Seq<AnnView>>, r: Seq<Seq<AnnView>>, c: Seq<AnnView>) -> (
    Seq<Seq<AnnView>>,
    Seq<Seq<AnnView>>,
    Seq<AnnView>,
) {
    if u.len() == 0 {
        (u, r, c)
    } else {
        (u.drop_last(), r.push(c), u.last())
    }
}

/// The redo transition, symmetric to `undo_step`.
pub open spec fn redo_step(u: Seq<Seq<AnnView>>, r: Seq<Seq<AnnView>>, c: Seq<AnnView>) -> (
    Seq<Seq<AnnView>>,
    Seq<Seq<AnnView>>,
    Seq<AnnView>,
) {
    if r.len() == 0 {
        (u, r, c)
    } else {
        (u.push(c), r.drop_last(), r.last())
    }
}

/// Undo/redo inverse law: after any recorded mutation history, an
/// `undo` followed by a `redo` restores the whole history model —
/// in particular the current annotation list — to its pre-undo state.
pub proof fn lemma_undo_redo_inverse(u: Seq<Seq<AnnView>>, r: Seq<Seq<AnnView>>, c: Seq<AnnView>)
    requires
        u.len() > 0,
    ensures
        ({
            let (u2, r2, c2) = undo_step(u, r, c);
            redo_step(u2, r2, c2) == (u, r, c)
        }),
{
    let (u2, r2, c2) = undo_step(u, r, c);
    assert(r2.len() > 0);
    let (u3, r3, c3) = redo_step(u2, r2, c2);
    assert(u3 =~= u);
    assert(r3 =~= r);
    assert(c3 == c);
}

/// Redo is a no-op whenever the redo stack is empty — in particular
/// right after a fresh mutation, since recording clears the redo
/// stack.
pub proof fn lemma_redo_noop_when_empty(u: Seq<Seq<AnnView>>, r: Seq<Seq<AnnView>>, c: Seq<AnnView>)
    requires
        r.len() == 0,
    ensures
        redo_step(u, r, c) == (u, r, c),
{
}

/// Deletion selection-safety: removing the annotation at index `i`
/// preserves the identity of every other annotation under the store's
/// selection rule — a selection below `i` keeps its index, a
/// selection above `i` shifts down by one, and in both cases it still
/// denotes the same annotation value. (A selection at `i` itself is
/// reset by the store.)
pub proof fn lemma_remove_keeps_identity(l: Seq<AnnView>, sel: int, i: int)
    requires
        0 <= sel < l.len(),
        0 <= i < l.len(),
        sel != i,
    ensures
        sel < i ==> l.remove(i)[sel] == l[sel],
        sel > i ==> l.remove(i)[sel - 1] == l[sel],
{
}

/// Copy a byte vector, preserving its value.
fn clone_bytes(v: &Vec<u8>) -> (r: Vec<u8>)
    ensures
        r@ == v@,
{
    let mut r: Vec<u8> = Vec::new();
    let mut i: usize = 0;
    while i < v.len()
        invariant
            0 <= i <= v.len(),
            r@ == v@.take(i as int),
        decreases v.len() - i,
    {
        r.push(v[i]);
        i = i + 1;
        proof {
            assert(v@.take(i as int) =~= v@.take(i as int - 1).push(v@[i as int - 1]));
        }
    }
    proof {
        assert(v@.take(v@.len() as int) =~= v@);
    }
    r
}

/// Copy one annotation, preserving its value.
fn clone_ann(a: &Annotation) -> (r: Annotation)
    ensures
        r@ == a@,
{
    match a {
        Annotation::Arrow { start, end, color, thickness } => Annotation::Arrow {
            start: *start,
            end: *end,
            color: *color,
            thickness: *thickness,
        },
        Annotation::Rectangle { min, max, color, thickness } => Annotation::Rectangle {
            min: *min,
            max: *max,
            color: *color,
            thickness: *thickness,
        },
        Annotation::Text { pos, content, font_size, color } => Annotation::Text {
            pos: *pos,
            content: clone_bytes(content),
            font_size: *font_size,
            color: *color,
        },
    }
}

/// Copy an annotation list, preserving its value.
fn clone_anns(v: &Vec<Annotation>) -> (r: Vec<Annotation>)
    ensures
        anns_view(r@) == anns_view(v@),
        r@.len() == v@.len(),
{
    let mut r: Vec<Annotation> = Vec::new();
    let mut i: usize = 0;
    while i < v.len()
        invariant
            0 <= i <= v.len(),
            r@.len() == i,
            forall|k: int| 0 <= k < i ==> #[trigger] r@[k]@ == v@[k]@,
        decreases v.len() - i,
    {
        r.push(clone_ann(&v[i]));
        i = i + 1;
    }
    proof {
        assert(anns_view(r@) =~= anns_view(v@));
    }
    r
}

/// One open document's engine state.
pub struct Session {
    /// The annotation list; its order is the z-order.
    pub annotations: Vec<Annotation>,
    /// Snapshots to restore on undo, oldest first.
    pub undo_stack: Vec<Vec<Annotation>>,
    /// Snapshots to restore on redo, oldest first.
    pub redo_stack: Vec<Vec<Annotation>>,
    /// The active tool.
    pub tool: Tool,
    /// The current stroke color (the alpha channel is ignored; strokes
    /// are committed opaque).
    pub color: Color,
    /// The current stroke thickness, in image pixels.
    pub thickness: i64,
    /// The current font size for new text labels.
    pub font_size: i64,
    /// The drag-lifecycle state.
    pub drag: DragState,
    /// At most one selected index into `annotations`.
    pub selected: Option<usize>,
    /// The image-space anchor of an in-progress text entry, if any.
    pub text_input: Option<Pt>,
    /// The pan offset, in whole view pixels.
    pub pan: Pt,
    /// The zoom factor, in percent.
    pub zoom: i64,
    /// The source image's width in pixels.
    pub img_w: i64,
    /// The source image's height in pixels.
    pub img_h: i64,
}

/// The color a committed stroke gets: the given color at full
/// opacity.
pub open spec fn opaque(c: Color) -> Color {
    Color { r: c.r, g: c.g, b: c.b, a: 255 }
}

/// A pointer position mapped to image space under the session's
/// transform and clamped to the supported canvas.
pub open spec fn image_pt_of_screen(s: Session, pos: Pt, center: Pt) -> Pt {
    Pt {
        x: clamp_coord(
            image_of_fine(200 * pos.x, s.pan.x as int, center.x as int, s.img_w as int, s.zoom as int),
        ),
        y: clamp_coord(
            image_of_fine(200 * pos.y, s.pan.y as int, center.y as int, s.img_h as int, s.zoom as int),
        ),
    }
}

/// The annotation a completed drawing drag commits: an arrow from the
/// drag's start to its end when the arrow tool is active, otherwise a
/// rectangle spanning them, both in image space with the current
/// style.
pub open spec fn drawn_ann(s: Session, start: Pt, pos: Pt, center: Pt) -> AnnView {
    if s.tool == Tool::Arrow {
        AnnView::Arrow {
            start: image_pt_of_screen(s, start, center),
            end: image_pt_of_screen(s, pos, center),
            color: opaque(s.color),
            thickness: s.thickness,
        }
    } else {
        AnnView::Rectangle {
            min: image_pt_of_screen(s, start, center),
            max: image_pt_of_screen(s, pos, center),
            color: opaque(s.color),
            thickness: s.thickness,
        }
    }
}

impl Session {
    /// The session invariant: transform inside its bounds, every
    /// annotation (and every snapshot) well-formed, the selection in
    /// range, style settings in range.
    pub open spec fn wf(self) -> bool {
        &&& zoom_ok(self.zoom as int)
        &&& pan_ok(self.pan)
        &&& 0 <= self.img_w <= MAX_COORD
        &&& 0 <= self.img_h <= MAX_COORD
        &&& anns_wf(anns_view(self.annotations@))
        &&& snaps_wf(snaps_view(self.undo_stack@))
        &&& snaps_wf(snaps_view(self.redo_stack@))
        &&& 0 <= self.thickness <= MAX_THICKNESS
        &&& 1 <= self.font_size <= MAX_FONT
        &&& match self.selected {
            Some(i) => (i as int) < self.annotations@.len(),
            None => true,
        }
        &&& match self.text_input {
            Some(p) => crate::model::coord_ok(p),
            None => true,
        }
        &&& match self.drag {
            DragState::Drawing { start } => pan_ok(start),
            _ => true,
        }
    }

    /// Tool and style settings, the transform and the image
    /// dimensions are unchanged.
    pub open spec fn same_core(self, o: Session) -> bool {
        &&& self.tool == o.tool
        &&& self.color == o.color
        &&& self.thickness == o.thickness
        &&& self.font_size == o.font_size
        &&& self.pan == o.pan
        &&& self.zoom == o.zoom
        &&& self.img_w == o.img_w
        &&& self.img_h == o.img_h
    }

    /// Everything outside the store, history and selection is
    /// unchanged.
    pub open spec fn same_settings(self, o: Session) -> bool {
        &&& self.same_core(o)
        &&& self.drag == o.drag
        &&& self.text_input == o.text_input
    }

    /// A fresh session over a loaded annotation list and the source
    /// image's dimensions, with the default tool and style settings.
    pub fn new(annotations: Vec<Annotation>, img_w: i64, img_h: i64) -> (s: Session)
        requires
            anns_wf(anns_view(annotations@)),
            0 <= img_w <= MAX_COORD,
            0 <= img_h <= MAX_COORD,
        ensures
            s.wf(),
            s.annotations@ == annotations@,
            s.undo_stack@.len() == 0,
            s.redo_stack@.len() == 0,
            s.tool == Tool::Arrow,
            s.color == (Color { r: 255, g: 0, b: 0, a: 255 }),
            s.thickness == 3,
            s.font_size == 20,
            s.drag == DragState::Idle,
            s.selected is None,
            s.text_input is None,
            s.pan == (Pt { x: 0, y: 0 }),
            s.zoom == 100,
            s.img_w == img_w,
            s.img_h == img_h,
    {
        Session {
            annotations,
            undo_stack: Vec::new(),
            redo_stack: Vec::new(),
            tool: Tool::Arrow,
            color: Color { r: 255, g: 0, b: 0, a: 255 },
            thickness: 3,
            font_size: 20,
            drag: DragState::Idle,
            selected: None,
            text_input: None,
            pan: Pt { x: 0, y: 0 },
            zoom: 100,
            img_w,
            img_h,
        }
    }

    /// The color a newly committed annotation gets: the current color
    /// with full opacity.
    pub fn current_color(&self) -> (c: Color)
        ensures
            c == (Color { r: self.color.r, g: self.color.g, b: self.color.b, a: 255 }),
    {
        Color { r: self.color.r, g: self.color.g, b: self.color.b, a: 255 }
    }

    /// Record the pre-mutation snapshot: push the current list onto
    /// the undo stack and clear the redo stack. Called before every
    /// user-visible mutation that is not itself an undo or redo.
    pub fn record(&mut self)
        requires
            old(self).wf(),
        ensures
            final(self).wf(),
            snaps_view(final(self).undo_stack@) == snaps_view(old(self).undo_stack@).push(
                anns_view(old(self).annotations@),
            ),
            final(self).redo_stack@.len() == 0,
            final(self).annotations@ == old(self).annotations@,
            final(self).selected == old(self).selected,
            final(self).same_settings(*old(self)),
    {
        let snap = clone_anns(&self.annotations);
        self.undo_stack.push(snap);
        self.redo_stack.clear();
        proof {
            let u0 = snaps_view(old(self).undo_stack@);
            assert(snaps_view(self.undo_stack@) =~= u0.push(anns_view(old(self).annotations@)));
            assert(snaps_view(self.redo_stack@) =~= Seq::<Seq<AnnView>>::empty());
        }
    }

    /// Undo: restore the top undo snapshot, pushing the current list
    /// onto the redo stack; a no-op when the undo stack is empty. The
    /// selection is reset if it would fall out of range. Returns
    /// whether anything changed (so the caller persists).
    pub fn undo(&mut self) -> (did: bool)
        requires
            old(self).wf(),
        ensures
            final(self).wf(),
            did == (old(self).undo_stack@.len() > 0),
            ({
                let (u2, r2, c2) = undo_step(
                    snaps_view(old(self).undo_stack@),
                    snaps_view(old(self).redo_stack@),
                    anns_view(old(self).annotations@),
                );
                snaps_view(final(self).undo_stack@) == u2 && snaps_view(final(self).redo_stack@)
                    == r2 && anns_view(final(self).annotations@) == c2
            }),
            final(self).selected == (match old(self).selected {
                Some(i) => if (i as int) < final(self).annotations@.len() {
                    Some(i)
                } else {
                    None::<usize>
                },
                None => None::<usize>,
            }),
            final(self).same_settings(*old(self)),
    {
        let popped = self.undo_stack.pop();
        match popped {
            Some(prev) => {
                let cur = clone_anns(&self.annotations);
                self.redo_stack.push(cur);
                self.annotations = prev;
                match self.selected {
                    Some(i) => {
                        if i >= self.annotations.len() {
                            self.selected = None;
                        }
                    },
                    None => {},
                }
                proof {
                    let u0 = snaps_view(old(self).undo_stack@);
                    let r0 = snaps_view(old(self).redo_stack@);
                    assert(snaps_view(self.undo_stack@) =~= u0.drop_last());
                    assert(snaps_view(self.redo_stack@) =~= r0.push(
                        anns_view(old(self).annotations@),
                    ));
                    assert(anns_view(self.annotations@) == u0.last());
                }
                true
            },
            None => false,
        }
    }

    /// Redo: restore the top redo snapshot, pushing the current list
    /// onto the undo stack; a no-op when the redo stack is empty. The
    /// selection is reset if it would fall out of range. Returns
    /// whether anything changed.
    pub fn redo(&mut self) -> (did: bool)
        requires
            old(self).wf(),
        ensures
            final(self).wf(),
            did == (old(self).redo_stack@.len() > 0),
            ({
                let (u2, r2, c2) = redo_step(
                    snaps_view(old(self).undo_stack@),
                    snaps_view(old(self).redo_stack@),
                    anns_view(old(self).annotations@),
                );
                snaps_view(final(self).undo_stack@) == u2 && snaps_view(final(self).redo_stack@)
                    == r2 && anns_view(final(self).annotations@) == c2
            }),
            final(self).selected == (match old(self).selected {
                Some(i) => if (i as int) < final(self).annotations@.len() {
                    Some(i)
                } else {
                    None::<usize>
                },
                None => None::<usize>,
            }),
            final(self).same_settings(*old(self)),
    {
        let popped = self.redo_stack.pop();
        match popped {
            Some(next) => {
                let cur = clone_anns(&self.annotations);
                self.undo_stack.push(cur);
                self.annotations = next;
                match self.selected {
                    Some(i) => {
                        if i >= self.annotations.len() {
                            self.selected = None;
                        }
                    },
                    None => {},
                }
                proof {
                    let u0 = snaps_view(old(self).undo_stack@);
                    let r0 = snaps_view(old(self).redo_stack@);
                    assert(snaps_view(self.redo_stack@) =~= r0.drop_last());
                    assert(snaps_view(self.undo_stack@) =~= u0.push(
                        anns_view(old(self).annotations@),
                    ));
                    assert(anns_view(self.annotations@) == r0.last());
                }
                true
            },
            None => false,
        }
    }

    /// Append an annotation at the end of the list (top of the
    /// z-order), recording history first.
    pub fn add_annotation(&mut self, a: Annotation)
        requires
            old(self).wf(),
            ann_wf(a@),
        ensures
            final(self).wf(),
            anns_view(final(self).annotations@) == anns_view(old(self).annotations@).push(a@),
            snaps_view(final(self).undo_stack@) == snaps_view(old(self).undo_stack@).push(
                anns_view(old(self).annotations@),
            ),
            final(self).redo_stack@.len() == 0,
            final(self).selected == old(self).selected,
            final(self).same_settings(*old(self)),
    {
        self.record();
        self.annotations.push(a);
        proof {
            assert(anns_view(self.annotations@) =~= anns_view(old(self).annotations@).push(a@));
        }
    }

    /// Remove the annotation at `index`: a silent no-op when the index
    /// is out of range; otherwise later annotations shift down. A
    /// selection pointing at the removed annotation is reset; any
    /// other selection keeps pointing at the same logical annotation
    /// (its index shifts down past the removed one). Does not record
    /// history by itself.
    pub fn remove(&mut self, index: usize)
        requires
            old(self).wf(),
        ensures
            final(self).wf(),
            (index as int) < old(self).annotations@.len() ==> {
                &&& anns_view(final(self).annotations@) == anns_view(
                    old(self).annotations@,
                ).remove(index as int)
                &&& final(self).selected == (match old(self).selected {
                    Some(s) => if s < index {
                        Some(s)
                    } else if s == index {
                        None::<usize>
                    } else {
                        Some((s - 1) as usize)
                    },
                    None => None::<usize>,
                })
            },
            (index as int) >= old(self).annotations@.len() ==> *final(self) == *old(self),
            final(self).undo_stack@ == old(self).undo_stack@,
            final(self).redo_stack@ == old(self).redo_stack@,
            final(self).same_settings(*old(self)),
    {
        if index < self.annotations.len() {
            self.annotations.remove(index);
            match self.selected {
                Some(s) => {
                    if s == index {
                        self.selected = None;
                    } else if s > index {
                        self.selected = Some(s - 1);
                    }
                },
                None => {},
            }
            proof {
                assert(anns_view(self.annotations@) =~= anns_view(
                    old(self).annotations@,
                ).remove(index as int));
            }
        }
    }

    /// Translate the annotation at `index` by an image-space delta,
    /// clamped to the supported canvas; a silent no-op when the index
    /// is out of range. Style is unchanged. Does not record history by
    /// itself (a continuous drag is one history entry, recorded at
    /// drag start).
    pub fn translate_annotation(&mut self, index: usize, dx: i64, dy: i64)
        requires
            old(self).wf(),
            -100_000_000 <= dx <= 100_000_000,
            -100_000_000 <= dy <= 100_000_000,
        ensures
            final(self).wf(),
            (index as int) < old(self).annotations@.len() ==> anns_view(final(self).annotations@)
                == anns_view(old(self).annotations@).update(
                index as int,
                translate_ann(anns_view(old(self).annotations@)[index as int], dx as int, dy as int),
            ),
            (index as int) >= old(self).annotations@.len() ==> *final(self) == *old(self),
            final(self).undo_stack@ == old(self).undo_stack@,
            final(self).redo_stack@ == old(self).redo_stack@,
            final(self).selected == old(self).selected,
            final(self).same_settings(*old(self)),
    {
        if index >= self.annotations.len() {
            return ;
        }
        let a = clone_ann(&self.annotations[index]);
        let moved = match a {
            Annotation::Arrow { start, end, color, thickness } => Annotation::Arrow {
                start: translate_pt(start, dx, dy),
                end: translate_pt(end, dx, dy),
                color,
                thickness,
            },
            Annotation::Rectangle { min, max, color, thickness } => Annotation::Rectangle {
                min: translate_pt(min, dx, dy),
                max: translate_pt(max, dx, dy),
                color,
                thickness,
            },
            Annotation::Text { pos, content, font_size, color } => Annotation::Text {
                pos: translate_pt(pos, dx, dy),
                content,
                font_size,
                color,
            },
        };
        self.annotations.set(index, moved);
        proof {
            assert(anns_view(self.annotations@) =~= anns_view(old(self).annotations@).update(
                index as int,
                translate_ann(anns_view(old(self).annotations@)[index as int], dx as int, dy as int),
            ));
        }
    }

    /// The topmost annotation under the view-space point `q`, given
    /// the viewport center, under the session's current transform.
    pub fn hit_test_at(&self, q: Pt, center: Pt) -> (r: Option<usize>)
        requires
            self.wf(),
            pan_ok(q),
            pan_ok(center),
        ensures
            ({
                let th = top_hit(
                    anns_view(self.annotations@),
                    q,
                    self.pan,
                    center,
                    self.img_w as int,
                    self.img_h as int,
                    self.zoom as int,
                );
                match r {
                    Some(i) => th == Some(i as int) && (i as int) < self.annotations@.len(),
                    None => th is None,
                }
            }),
    {
        let r = hit_test(&self.annotations, q, self.pan, center, self.img_w, self.img_h, self.zoom);
        proof {
            if r is Some {
                lemma_top_hit_in_range(
                    anns_view(self.annotations@),
                    q,
                    self.pan,
                    center,
                    self.img_w as int,
                    self.img_h as int,
                    self.zoom as int,
                );
            }
        }
        r
    }

    /// A pointer position mapped to image space and clamped to the
    /// supported canvas.
    pub fn screen_to_image_clamped(&self, pos: Pt, center: Pt) -> (p: Pt)
        requires
            self.wf(),
            pan_ok(pos),
            pan_ok(center),
        ensures
            p == image_pt_of_screen(*self, pos, center),
            crate::model::coord_ok(p),
    {
        let ip = screen_to_image(pos, self.pan, center, self.img_w, self.img_h, self.zoom);
        Pt { x: clamp_c(ip.x), y: clamp_c(ip.y) }
    }

    /// A primary-button drag has started at `pos`. With a drawing tool
    /// this arms a preview; with the text tool it opens a text entry
    /// at the clicked image point; with the select tool it hit-tests,
    /// and on a hit records history, selects, and starts moving.
    pub fn pointer_down(&mut self, pos: Pt, center: Pt)
        requires
            old(self).wf(),
            pan_ok(pos),
            pan_ok(center),
        ensures
            final(self).wf(),
            final(self).same_core(*old(self)),
            match old(self).tool {
                Tool::Arrow | Tool::Rectangle => {
                    &&& final(self).drag == (DragState::Drawing { start: pos })
                    &&& final(self).text_input == old(self).text_input
                    &&& final(self).selected == old(self).selected
                    &&& final(self).annotations@ == old(self).annotations@
                    &&& final(self).undo_stack@ == old(self).undo_stack@
                    &&& final(self).redo_stack@ == old(self).redo_stack@
                },
                Tool::Text => {
                    &&& final(self).text_input == Some(
                        image_pt_of_screen(*old(self), pos, center),
                    )
                    &&& final(self).drag == old(self).drag
                    &&& final(self).selected == old(self).selected
                    &&& final(self).annotations@ == old(self).annotations@
                    &&& final(self).undo_stack@ == old(self).undo_stack@
                    &&& final(self).redo_stack@ == old(self).redo_stack@
                },
                Tool::Select => {
                    let th = top_hit(
                        anns_view(old(self).annotations@),
                        pos,
                        old(self).pan,
                        center,
                        old(self).img_w as int,
                        old(self).img_h as int,
                        old(self).zoom as int,
                    );
                    match th {
                        Some(i) => {
                            &&& final(self).selected == Some(i as usize)
                            &&& final(self).drag == (DragState::Moving { index: i as usize })
                            &&& snaps_view(final(self).undo_stack@) == snaps_view(
                                old(self).undo_stack@,
                            ).push(anns_view(old(self).annotations@))
                            &&& final(self).redo_stack@.len() == 0
                            &&& final(self).annotations@ == old(self).annotations@
                            &&& final(self).text_input == old(self).text_input
                        },
                        None => {
                            &&& final(self).selected is None
                            &&& final(self).drag == old(self).drag
                            &&& final(self).annotations@ == old(self).annotations@
                            &&& final(self).undo_stack@ == old(self).undo_stack@
                            &&& final(self).redo_stack@ == old(self).redo_stack@
                            &&& final(self).text_input == old(self).text_input
                        },
                    }
                },
            },
    {
        match self.tool {
            Tool::Arrow | Tool::Rectangle => {
                self.drag = DragState::Drawing { start: pos };
            },
            Tool::Text => {
                let p = self.screen_to_image_clamped(pos, center);
                self.text_input = Some(p);
            },
            Tool::Select => {
                let r = self.hit_test_at(pos, center);
                match r {
                    Some(idx) => {
                        self.selected = Some(idx);
                        self.record();
                        self.drag = DragState::Moving { index: idx };
                    },
                    None => {
                        self.selected = None;
                    },
                }
            },
        }
    }

    /// The pointer moved by `delta` view pixels during a drag. While
    /// moving an annotation, the delta is scaled down by the zoom
    /// factor and applied to the selected annotation's geometry; no
    /// new history entry is recorded (the whole drag is one entry).
    pub fn drag_moved(&mut self, delta: Pt)
        requires
            old(self).wf(),
            -MAX_PAN <= delta.x <= MAX_PAN,
            -MAX_PAN <= delta.y <= MAX_PAN,
        ensures
            final(self).wf(),
            final(self).same_settings(*old(self)),
            final(self).selected == old(self).selected,
            final(self).undo_stack@ == old(self).undo_stack@,
            final(self).redo_stack@ == old(self).redo_stack@,
            match old(self).drag {
                DragState::Moving { index } => {
                    let dx = image_delta(delta.x as int, old(self).zoom as int);
                    let dy = image_delta(delta.y as int, old(self).zoom as int);
                    if (index as int) < old(self).annotations@.len() {
                        anns_view(final(self).annotations@) == anns_view(
                            old(self).annotations@,
                        ).update(
                            index as int,
                            translate_ann(anns_view(old(self).annotations@)[index as int], dx, dy),
                        )
                    } else {
                        final(self).annotations@ == old(self).annotations@
                    }
                },
                _ => final(self).annotations@ == old(self).annotations@,
            },
    {
        match self.drag {
            DragState::Moving { index } => {
                let dx = screen_delta_to_image(delta.x, self.zoom);
                let dy = screen_delta_to_image(delta.y, self.zoom);
                self.translate_annotation(index, dx, dy);
            },
            _ => {},
        }
    }

    /// The primary-button drag ended at `pos`. Ending a drawing drag
    /// whose view-space displacement exceeds the 5-pixel threshold
    /// commits a new arrow or rectangle (per the active tool), with
    /// its geometry converted to image space; a shorter gesture is
    /// discarded. Ending a move commits the moved geometry. Returns
    /// whether a mutation was committed (so the caller persists).
    pub fn pointer_up(&mut self, pos: Pt, center: Pt) -> (committed: bool)
        requires
            old(self).wf(),
            pan_ok(pos),
            pan_ok(center),
        ensures
            final(self).wf(),
            final(self).same_core(*old(self)),
            final(self).drag == DragState::Idle,
            final(self).text_input == old(self).text_input,
            final(self).selected == old(self).selected,
            match old(self).drag {
                DragState::Drawing { start } => {
                    let dx = pos.x - start.x;
                    let dy = pos.y - start.y;
                    let create = dx * dx + dy * dy > 25 && (old(self).tool == Tool::Arrow
                        || old(self).tool == Tool::Rectangle);
                    &&& committed == create
                    &&& if create {
                        &&& anns_view(final(self).annotations@) == anns_view(
                            old(self).annotations@,
                        ).push(drawn_ann(*old(self), start, pos, center))
                        &&& snaps_view(final(self).undo_stack@) == snaps_view(
                            old(self).undo_stack@,
                        ).push(anns_view(old(self).annotations@))
                        &&& final(self).redo_stack@.len() == 0
                    } else {
                        &&& final(self).annotations@ == old(self).annotations@
                        &&& final(self).undo_stack@ == old(self).undo_stack@
                        &&& final(self).redo_stack@ == old(self).redo_stack@
                    }
                },
                DragState::Moving { .. } => {
                    &&& committed == true
                    &&& final(self).annotations@ == old(self).annotations@
                    &&& final(self).undo_stack@ == old(self).undo_stack@
                    &&& final(self).redo_stack@ == old(self).redo_stack@
                },
                DragState::Idle => {
                    &&& committed == false
                    &&& final(self).annotations@ == old(self).annotations@
                    &&& final(self).undo_stack@ == old(self).undo_stack@
                    &&& final(self).redo_stack@ == old(self).redo_stack@
                },
            },
    {
        let drag = self.drag;
        self.drag = DragState::Idle;
        match drag {
            DragState::Drawing { start } => {
                let dx: i64 = pos.x - start.x;
                let dy: i64 = pos.y - start.y;
                proof {
                    assert(0 <= dx * dx <= 4_000_000_000_000 && 0 <= dy * dy
                        <= 4_000_000_000_000) by (nonlinear_arith)
                        requires -2_000_000 <= dx <= 2_000_000 && -2_000_000 <= dy <= 2_000_000;
                }
                let moved = dx * dx + dy * dy > 25;
                let is_draw_tool = match self.tool {
                    Tool::Arrow | Tool::Rectangle => true,
                    _ => false,
                };
                if moved && is_draw_tool {
                    let p1 = self.screen_to_image_clamped(start, center);
                    let p2 = self.screen_to_image_clamped(pos, center);
                    let c = self.current_color();
                    let t = self.thickness;
                    let ann = match self.tool {
                        Tool::Arrow => Annotation::Arrow {
                            start: p1,
                            end: p2,
                            color: c,
                            thickness: t,
                        },
                        _ => Annotation::Rectangle { min: p1, max: p2, color: c, thickness: t },
                    };
                    self.add_annotation(ann);
                    true
                } else {
                    false
                }
            },
            DragState::Moving { .. } => true,
            DragState::Idle => false,
        }
    }

    /// A delete/backspace signal: while a selection exists and no text
    /// entry is in progress, records history, removes the selected
    /// annotation and clears the selection. Returns whether a
    /// mutation was committed.
    pub fn delete_selected(&mut self) -> (committed: bool)
        requires
            old(self).wf(),
        ensures
            final(self).wf(),
            final(self).same_settings(*old(self)),
            committed == (old(self).text_input is None && old(self).selected is Some),
            if committed {
                &&& anns_view(final(self).annotations@) == anns_view(
                    old(self).annotations@,
                ).remove(old(self).selected->0 as int)
                &&& final(self).selected is None
                &&& snaps_view(final(self).undo_stack@) == snaps_view(old(self).undo_stack@).push(
                    anns_view(old(self).annotations@),
                )
                &&& final(self).redo_stack@.len() == 0
            } else {
                &&& final(self).annotations@ == old(self).annotations@
                &&& final(self).selected == old(self).selected
                &&& final(self).undo_stack@ == old(self).undo_stack@
                &&& final(self).redo_stack@ == old(self).redo_stack@
            },
    {
        if self.text_input.is_none() {
            match self.selected {
                Some(idx) => {
                    self.record();
                    self.remove(idx);
                    true
                },
                None => false,
            }
        } else {
            false
        }
    }

    /// Committed text entry: while a text entry is in progress and the
    /// content is non-empty, records history and appends a text
    /// annotation at the entry's anchor; empty content is discarded.
    /// Either way the text entry is closed. Returns whether a
    /// mutation was committed.
    pub fn commit_text(&mut self, content: Vec<u8>) -> (committed: bool)
        requires
            old(self).wf(),
            content@.len() <= MAX_TEXT_LEN,
        ensures
            final(self).wf(),
            final(self).same_core(*old(self)),
            final(self).drag == old(self).drag,
            final(self).selected == old(self).selected,
            final(self).text_input is None || old(self).text_input is None,
            committed == (old(self).text_input is Some && content@.len() > 0),
            if committed {
                &&& anns_view(final(self).annotations@) == anns_view(
                    old(self).annotations@,
                ).push(
                    AnnView::Text {
                        pos: old(self).text_input->0,
                        content: content@,
                        font_size: old(self).font_size,
                        color: opaque(old(self).color),
                    },
                )
                &&& snaps_view(final(self).undo_stack@) == snaps_view(old(self).undo_stack@).push(
                    anns_view(old(self).annotations@),
                )
                &&& final(self).redo_stack@.len() == 0
                &&& final(self).text_input is None
            } else {
                &&& final(self).annotations@ == old(self).annotations@
                &&& final(self).undo_stack@ == old(self).undo_stack@
                &&& final(self).redo_stack@ == old(self).redo_stack@
                &&& (old(self).text_input is Some ==> final(self).text_input is None)
                &&& (old(self).text_input is None ==> final(self).text_input == old(
                    self,
                ).text_input)
            },
    {
        match self.text_input {
            Some(p) => {
                self.text_input = None;
                if content.len() > 0 {
                    let c = self.current_color();
                    let fs = self.font_size;
                    self.add_annotation(
                        Annotation::Text { pos: p, content, font_size: fs, color: c },
                    );
                    true
                } else {
                    false
                }
            },
            None => false,
        }
    }

    /// Pan by a view-space delta (a middle-button drag), clamped to
    /// the supported view range.
    pub fn pan_by(&mut self, delta: Pt)
        requires
            old(self).wf(),
            -MAX_PAN <= delta.x <= MAX_PAN,
            -MAX_PAN <= delta.y <= MAX_PAN,
        ensures
            final(self).wf(),
            final(self).pan.x == crate::geom::clamp_pan(old(self).pan.x + delta.x),
            final(self).pan.y == crate::geom::clamp_pan(old(self).pan.y + delta.y),
            final(self).zoom == old(self).zoom,
            final(self).annotations@ == old(self).annotations@,
            final(self).undo_stack@ == old(self).undo_stack@,
            final(self).redo_stack@ == old(self).redo_stack@,
            final(self).selected == old(self).selected,
            final(self).drag == old(self).drag,
            final(self).text_input == old(self).text_input,
            final(self).tool == old(self).tool,
            final(self).color == old(self).color,
            final(self).thickness == old(self).thickness,
            final(self).font_size == old(self).font_size,
            final(self).img_w == old(self).img_w,
            final(self).img_h == old(self).img_h,
    {
        self.pan = Pt { x: clamp_p(self.pan.x + delta.x), y: clamp_p(self.pan.y + delta.y) };
    }

    /// Change the zoom factor, keeping the image point under the
    /// cursor in place: the new zoom is clamped to its bounds, and the
    /// pan is replaced by the zoom-at-cursor solution (rounded toward
    /// negative infinity, then clamped to the supported view range).
    pub fn set_zoom_at(&mut self, new_zoom: i64, cursor: Pt, center: Pt)
        requires
            old(self).wf(),
            pan_ok(cursor),
            pan_ok(center),
        ensures
            final(self).wf(),
            final(self).zoom == crate::geom::clamp_zoom(new_zoom as int),
            final(self).pan.x == crate::geom::clamp_pan(
                cursor.x - center.x - (cursor.x - center.x - old(self).pan.x) * crate::geom::clamp_zoom(
                    new_zoom as int,
                ) / old(self).zoom as int,
            ),
            final(self).pan.y == crate::geom::clamp_pan(
                cursor.y - center.y - (cursor.y - center.y - old(self).pan.y) * crate::geom::clamp_zoom(
                    new_zoom as int,
                ) / old(self).zoom as int,
            ),
            final(self).annotations@ == old(self).annotations@,
            final(self).undo_stack@ == old(self).undo_stack@,
            final(self).redo_stack@ == old(self).redo_stack@,
            final(self).selected == old(self).selected,
            final(self).drag == old(self).drag,
            final(self).text_input == old(self).text_input,
            final(self).tool == old(self).tool,
            final(self).color == old(self).color,
            final(self).thickness == old(self).thickness,
            final(self).font_size == old(self).font_size,
            final(self).img_w == old(self).img_w,
            final(self).img_h == old(self).img_h,
    {
        let z2: i64 = if new_zoom < ZOOM_MIN {
            ZOOM_MIN
        } else if new_zoom > ZOOM_MAX {
            ZOOM_MAX
        } else {
            new_zoom
        };
        let relx: i64 = cursor.x - center.x - self.pan.x;
        let rely: i64 = cursor.y - center.y - self.pan.y;
        proof {
            assert(-3_000_000_000 <= relx * z2 <= 3_000_000_000) by (nonlinear_arith)
                requires -3_000_000 <= relx <= 3_000_000 && 0 < z2 <= 1000;
            assert(-3_000_000_000 <= rely * z2 <= 3_000_000_000) by (nonlinear_arith)
                requires -3_000_000 <= rely <= 3_000_000 && 0 < z2 <= 1000;
        }
        let qx = div_floor(relx * z2, self.zoom);
        let qy = div_floor(rely * z2, self.zoom);
        self.pan = Pt {
            x: clamp_p(cursor.x - center.x - qx),
            y: clamp_p(cursor.y - center.y - qy),
        };
        self.zoom = z2;
    }
}

/// A hit-test answer is an index into the list.
proof fn lemma_top_hit_in_range(l: Seq<AnnView>, q: Pt, pan: Pt, center: Pt, w: int, h: int, z: int)
    ensures
        match top_hit(l, q, pan, center, w, h, z) {
            Some(i) => 0 <= i < l.len(),
            None => true,
        },
    decreases l.len(),
{
    if l.len() > 0 && !crate::hit::ann_hit(l.last(), q, pan, center, w, h, z) {
        lemma_top_hit_in_range(l.drop_last(), q, pan, center, w, h, z);
    }
}

/// Translate a point by an image-space delta, clamping to the canvas.
fn translate_pt(p: Pt, dx: i64, dy: i64) -> (r: Pt)
    requires
        crate::model::coord_ok(p),
        -100_000_000 <= dx <= 100_000_000,
        -100_000_000 <= dy <= 100_000_000,
    ensures
        r == crate::model::translate_point(p, dx as int, dy as int),
{
    let nx: i64 = p.x + dx;
    let ny: i64 = p.y + dy;
    Pt { x: clamp_c(nx), y: clamp_c(ny) }
}

/// Clamp a coordinate to the supported canvas.
fn clamp_c(v: i64) -> (r: i64)
    ensures
        r == clamp_coord(v as int),
{
    if v < -MAX_COORD {
        -MAX_COORD
    } else if v > MAX_COORD {
        MAX_COORD
    } else {
        v
    }
}

/// Clamp a pan coordinate to the supported view range.
fn clamp_p(v: i64) -> (r: i64)
    ensures
        r == crate::geom::clamp_pan(v as int),
{
    if v < -MAX_PAN {
        -MAX_PAN
    } else if v > MAX_PAN {
        MAX_PAN
    } else {
        v
    }
}

} // verus!
