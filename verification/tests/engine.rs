//! End-to-end tests of the annotation engine: transforms, hit-testing,
//! history, persistence, rasterization and path derivation.

use annotz::codec::{decode_annotations, encode_annotations};
use annotz::geom::{image_from_view_fine, view_from_image};
use annotz::model::{Annotation, Color, Pt};
use annotz::paths::{annotz_path, export_path};
use annotz::raster::{render, PixelBuf};
use annotz::session::{DragState, Session, Tool};

fn pt(x: i64, y: i64) -> Pt {
    Pt { x, y }
}

fn red() -> Color {
    Color { r: 255, g: 0, b: 0, a: 255 }
}

fn arrow(sx: i64, sy: i64, ex: i64, ey: i64, t: i64) -> Annotation {
    Annotation::Arrow { start: pt(sx, sy), end: pt(ex, ey), color: red(), thickness: t }
}

fn rect(ax: i64, ay: i64, bx: i64, by: i64, t: i64) -> Annotation {
    Annotation::Rectangle { min: pt(ax, ay), max: pt(bx, by), color: red(), thickness: t }
}

fn text(x: i64, y: i64, content: &[u8], fs: i64) -> Annotation {
    Annotation::Text { pos: pt(x, y), content: content.to_vec(), font_size: fs, color: red() }
}

/// A session whose view transform is the identity: zoom 100%, no pan,
/// viewport centered at the origin, zero-size image.
fn identity_session(annotations: Vec<Annotation>) -> Session {
    Session::new(annotations, 0, 0)
}

#[test]
fn transform_round_trip() {
    let pan = pt(3, -7);
    let center = pt(400, 300);
    for &(px, py) in &[(123, -45), (0, 0), (-100_000, 100_000), (799, 601)] {
        for &z in &[10, 37, 100, 137, 1000] {
            let vf = view_from_image(pt(px, py), pan, center, 800, 600, z);
            let back = image_from_view_fine(vf, pan, center, 800, 600, z);
            assert_eq!(back, pt(px, py));
        }
    }
}

#[test]
fn zoom_at_cursor_keeps_point() {
    let mut s = identity_session(Vec::new());
    s.pan = pt(13, -27);
    s.zoom = 100;
    let cursor = pt(250, 125);
    let center = pt(0, 0);
    let before = image_from_view_fine(
        pt(200 * cursor.x, 200 * cursor.y),
        s.pan,
        center,
        s.img_w,
        s.img_h,
        s.zoom,
    );
    s.set_zoom_at(200, cursor, center);
    assert_eq!(s.zoom, 200);
    let after = image_from_view_fine(
        pt(200 * cursor.x, 200 * cursor.y),
        s.pan,
        center,
        s.img_w,
        s.img_h,
        s.zoom,
    );
    assert!((before.x - after.x).abs() <= 1);
    assert!((before.y - after.y).abs() <= 1);
}

#[test]
fn zoom_is_clamped() {
    let mut s = identity_session(Vec::new());
    s.set_zoom_at(5000, pt(0, 0), pt(0, 0));
    assert_eq!(s.zoom, 1000);
    s.set_zoom_at(1, pt(0, 0), pt(0, 0));
    assert_eq!(s.zoom, 10);
}

#[test]
fn undo_then_redo_restores_list() {
    let mut s = identity_session(Vec::new());
    s.add_annotation(arrow(0, 0, 10, 10, 3));
    s.add_annotation(rect(1, 1, 5, 5, 2));
    let full = s.annotations.clone();
    assert!(s.undo());
    assert_eq!(s.annotations.len(), 1);
    assert!(s.redo());
    assert_eq!(s.annotations, full);
}

#[test]
fn redo_after_fresh_mutation_is_noop() {
    let mut s = identity_session(Vec::new());
    s.add_annotation(arrow(0, 0, 10, 10, 3));
    assert!(s.undo());
    s.add_annotation(rect(1, 1, 5, 5, 2));
    let now = s.annotations.clone();
    assert!(!s.redo());
    assert_eq!(s.annotations, now);
}

#[test]
fn undo_on_empty_history_is_noop() {
    let mut s = identity_session(vec![arrow(0, 0, 1, 1, 1)]);
    let before = s.annotations.clone();
    assert!(!s.undo());
    assert_eq!(s.annotations, before);
}

#[test]
fn persistence_round_trip() {
    let list = vec![
        arrow(-100_000, 42, 100_000, -7, 20),
        rect(10, 10, 50, 40, 2),
        text(5, 6, b"hello\nworld + - 123", 20),
    ];
    let bytes = encode_annotations(&list);
    let back = decode_annotations(&bytes);
    assert_eq!(back, list);
}

#[test]
fn empty_list_round_trip() {
    let list: Vec<Annotation> = Vec::new();
    let bytes = encode_annotations(&list);
    assert!(bytes.is_empty());
    assert_eq!(decode_annotations(&bytes), list);
}

#[test]
fn malformed_sidecar_loads_empty() {
    assert!(decode_annotations(&b"garbage".to_vec()).is_empty());
    assert!(decode_annotations(&b"A+123".to_vec()).is_empty());
    let mut truncated = encode_annotations(&vec![arrow(0, 0, 1, 1, 1)]);
    truncated.pop();
    assert!(decode_annotations(&truncated).is_empty());
}

#[test]
fn out_of_range_sidecar_loads_empty() {
    // A record whose coordinate exceeds the supported canvas parses
    // but is rejected, so the whole load yields the empty list.
    let bytes = encode_annotations(&vec![arrow(0, 0, 1, 1, 1)]);
    let big = String::from_utf8(bytes.clone())
        .unwrap()
        .replace("+0000000000000000001", "+0000000000200000000");
    assert!(decode_annotations(&big.into_bytes()).is_empty());
    assert!(!decode_annotations(&bytes).is_empty());
}

#[test]
fn empty_text_content_loads_as_literal() {
    // A sidecar holding a text record with empty content is never
    // produced by the interactive flow, but a hand-crafted one loads
    // as literal: the engine does not re-validate content on load.
    let crafted = encode_annotations(&vec![text(5, 6, b"", 20)]);
    let loaded = decode_annotations(&crafted);
    assert_eq!(loaded, vec![text(5, 6, b"", 20)]);
}

#[test]
fn hit_test_returns_topmost() {
    // Two overlapping arrows: the query point lies on both, and the
    // later one (higher z-order) wins.
    let s = identity_session(vec![arrow(0, 0, 100, 0, 3), arrow(50, -50, 50, 50, 3)]);
    assert_eq!(s.hit_test_at(pt(50, 0), pt(0, 0)), Some(1));
    assert_eq!(s.hit_test_at(pt(2, 0), pt(0, 0)), Some(0));
    assert_eq!(s.hit_test_at(pt(500, 500), pt(0, 0)), None);
}

#[test]
fn rectangle_hit_is_border_only() {
    // Rectangle (10,10)-(50,40) with thickness 2: a point well inside
    // misses, a point on the left border hits.
    let s = identity_session(vec![rect(10, 10, 50, 40, 2)]);
    assert_eq!(s.hit_test_at(pt(30, 25), pt(0, 0)), None);
    assert_eq!(s.hit_test_at(pt(10, 25), pt(0, 0)), Some(0));
}

#[test]
fn text_hit_uses_approximate_box() {
    let s = identity_session(vec![text(10, 10, b"hello", 20)]);
    // Box is roughly 5 * 20 * 0.6 = 60 wide and 24 tall, expanded by 4.
    assert_eq!(s.hit_test_at(pt(40, 20), pt(0, 0)), Some(0));
    assert_eq!(s.hit_test_at(pt(200, 20), pt(0, 0)), None);
}

#[test]
fn deleting_selection_clears_it() {
    let mut s = identity_session(vec![arrow(0, 0, 10, 0, 3), rect(1, 1, 5, 5, 2)]);
    s.selected = Some(1);
    assert!(s.delete_selected());
    assert_eq!(s.selected, None);
    assert_eq!(s.annotations.len(), 1);
    assert_eq!(s.annotations[0], arrow(0, 0, 10, 0, 3));
}

#[test]
fn removing_above_selection_keeps_it() {
    let a = arrow(0, 0, 10, 0, 3);
    let mut s = identity_session(vec![a.clone(), rect(1, 1, 5, 5, 2)]);
    s.selected = Some(0);
    s.remove(1);
    assert_eq!(s.selected, Some(0));
    assert_eq!(s.annotations[0], a);
}

#[test]
fn removing_below_selection_shifts_it() {
    let a = rect(1, 1, 5, 5, 2);
    let mut s = identity_session(vec![arrow(0, 0, 10, 0, 3), a.clone()]);
    s.selected = Some(1);
    s.remove(0);
    // The index shifts down but still denotes the same annotation.
    assert_eq!(s.selected, Some(0));
    assert_eq!(s.annotations[0], a);
}

#[test]
fn delete_ignored_during_text_entry() {
    let mut s = identity_session(vec![arrow(0, 0, 10, 0, 3)]);
    s.selected = Some(0);
    s.text_input = Some(pt(1, 1));
    assert!(!s.delete_selected());
    assert_eq!(s.annotations.len(), 1);
}

#[test]
fn remove_out_of_range_is_noop() {
    let mut s = identity_session(vec![arrow(0, 0, 10, 0, 3)]);
    s.remove(7);
    assert_eq!(s.annotations.len(), 1);
}

#[test]
fn drawing_drag_commits_annotation() {
    let mut s = identity_session(Vec::new());
    s.tool = Tool::Rectangle;
    s.thickness = 2;
    s.pointer_down(pt(10, 10), pt(0, 0));
    assert!(matches!(s.drag, DragState::Drawing { .. }));
    let committed = s.pointer_up(pt(50, 40), pt(0, 0));
    assert!(committed);
    assert_eq!(s.annotations.len(), 1);
    assert_eq!(s.annotations[0], Annotation::Rectangle {
        min: pt(10, 10),
        max: pt(50, 40),
        color: red(),
        thickness: 2,
    });
    assert!(matches!(s.drag, DragState::Idle));
}

#[test]
fn short_drag_is_discarded() {
    let mut s = identity_session(Vec::new());
    s.tool = Tool::Arrow;
    s.pointer_down(pt(10, 10), pt(0, 0));
    let committed = s.pointer_up(pt(13, 13), pt(0, 0));
    assert!(!committed);
    assert!(s.annotations.is_empty());
    assert!(matches!(s.drag, DragState::Idle));
}

#[test]
fn select_and_move_annotation() {
    let mut s = identity_session(vec![arrow(10, 10, 60, 10, 3)]);
    s.tool = Tool::Select;
    s.pointer_down(pt(30, 10), pt(0, 0));
    assert_eq!(s.selected, Some(0));
    assert!(matches!(s.drag, DragState::Moving { index: 0 }));
    s.drag_moved(pt(5, -3));
    let committed = s.pointer_up(pt(35, 7), pt(0, 0));
    assert!(committed);
    assert_eq!(s.annotations[0], arrow(15, 7, 65, 7, 3));
    // The whole move is one history entry: undo restores the pre-move list.
    assert!(s.undo());
    assert_eq!(s.annotations[0], arrow(10, 10, 60, 10, 3));
}

#[test]
fn select_miss_clears_selection() {
    let mut s = identity_session(vec![arrow(10, 10, 60, 10, 3)]);
    s.selected = Some(0);
    s.tool = Tool::Select;
    s.pointer_down(pt(500, 500), pt(0, 0));
    assert_eq!(s.selected, None);
}

#[test]
fn text_entry_flow() {
    let mut s = identity_session(Vec::new());
    s.tool = Tool::Text;
    s.font_size = 20;
    s.pointer_down(pt(25, 35), pt(0, 0));
    assert_eq!(s.text_input, Some(pt(25, 35)));
    // Empty content is discarded and the entry closes.
    assert!(!s.commit_text(Vec::new()));
    assert_eq!(s.text_input, None);
    assert!(s.annotations.is_empty());
    // Non-empty content commits.
    s.pointer_down(pt(25, 35), pt(0, 0));
    assert!(s.commit_text(b"note".to_vec()));
    assert_eq!(s.annotations.len(), 1);
    assert_eq!(s.annotations[0], text(25, 35, b"note", 20));
}

#[test]
fn tool_switch_mid_drag_discards_gesture() {
    let mut s = identity_session(Vec::new());
    s.tool = Tool::Arrow;
    s.pointer_down(pt(10, 10), pt(0, 0));
    s.tool = Tool::Select;
    let committed = s.pointer_up(pt(90, 90), pt(0, 0));
    assert!(!committed);
    assert!(s.annotations.is_empty());
    assert!(matches!(s.drag, DragState::Idle));
}

#[test]
fn hit_test_under_zoom_and_pan() {
    let mut s = identity_session(vec![arrow(10, 10, 60, 10, 3)]);
    s.zoom = 200;
    s.pan = pt(7, -5);
    // At 2x zoom with this pan, image point p appears at view pan + 2p.
    assert_eq!(s.hit_test_at(pt(7 + 60, -5 + 20), pt(0, 0)), Some(0));
    assert_eq!(s.hit_test_at(pt(7 + 300, -5 + 20), pt(0, 0)), None);
}

#[test]
fn moving_clamps_at_canvas_edge() {
    let mut s = identity_session(vec![arrow(99_999, 0, 99_995, 0, 3)]);
    s.drag = DragState::Moving { index: 0 };
    s.drag_moved(pt(10, 0));
    assert_eq!(s.annotations[0], arrow(100_000, 0, 100_000, 0, 3));
}

#[test]
fn pan_accumulates_and_clamps() {
    let mut s = identity_session(Vec::new());
    s.pan_by(pt(10, -20));
    assert_eq!(s.pan, pt(10, -20));
    s.pan_by(pt(1_000_000, 0));
    assert_eq!(s.pan.x, 1_000_000);
}

#[test]
fn export_draws_arrow_pixels() {
    let white = Color { r: 255, g: 255, b: 255, a: 255 };
    let mut buf = PixelBuf::new_filled(200, 20, white);
    let list = vec![arrow(0, 0, 100, 0, 2)];
    render(&mut buf, &list);
    // Shaft pixels along y = 0..=1 between x = 0 and 100.
    assert_eq!(buf.get(0, 0), red());
    assert_eq!(buf.get(50, 0), red());
    assert_eq!(buf.get(50, 1), red());
    assert_eq!(buf.get(100, 0), red());
    // Arrowhead halo near the end: base corners at (90, -4)/(90, 4).
    assert_eq!(buf.get(95, 2), red());
    assert_eq!(buf.get(90, 3), red());
    // Away from the shaft and the head, the background is untouched.
    assert_eq!(buf.get(50, 10), white);
    assert_eq!(buf.get(120, 5), white);
    assert_eq!(buf.get(150, 0), white);
    assert_eq!(buf.get(10, 6), white);
}

#[test]
fn export_draws_rectangle_edges_only() {
    let white = Color { r: 255, g: 255, b: 255, a: 255 };
    let mut buf = PixelBuf::new_filled(100, 100, white);
    let list = vec![rect(10, 10, 50, 40, 2)];
    render(&mut buf, &list);
    assert_eq!(buf.get(10, 25), red());
    assert_eq!(buf.get(30, 10), red());
    assert_eq!(buf.get(50, 25), red());
    assert_eq!(buf.get(30, 40), red());
    assert_eq!(buf.get(30, 25), white);
    assert_eq!(buf.get(70, 70), white);
}

#[test]
fn export_skips_text() {
    let white = Color { r: 255, g: 255, b: 255, a: 255 };
    let mut buf = PixelBuf::new_filled(50, 50, white);
    let list = vec![text(10, 10, b"hello", 20)];
    render(&mut buf, &list);
    for y in 0..50 {
        for x in 0..50 {
            assert_eq!(buf.get(x, y), white);
        }
    }
}

#[test]
fn sidecar_path_derivation() {
    assert_eq!(annotz_path(&b"photo.png".to_vec()), b"photo.png.annotz".to_vec());
    assert_eq!(annotz_path(&b"dir/photo.jpeg".to_vec()), b"dir/photo.jpeg.annotz".to_vec());
    assert_eq!(annotz_path(&b"photo".to_vec()), b"photo..annotz".to_vec());
    assert_eq!(annotz_path(&b"dir/.hidden".to_vec()), b"dir/.hidden..annotz".to_vec());
    assert_eq!(annotz_path(&b"a.b/c".to_vec()), b"a.b/c..annotz".to_vec());
}

#[test]
fn export_path_derivation() {
    assert_eq!(export_path(&b"dir/photo.png".to_vec()), b"dir/photo_annotated.png".to_vec());
    assert_eq!(export_path(&b"photo".to_vec()), b"photo_annotated.png".to_vec());
    assert_eq!(export_path(&b"a.b/c".to_vec()), b"a.b/c_annotated.png".to_vec());
}

#[test]
fn default_color_is_opaque_red() {
    assert_eq!(Color::default(), red());
}

#[test]
fn new_session_defaults() {
    let s = Session::new(Vec::new(), 800, 600);
    assert_eq!(s.tool, Tool::Arrow);
    assert_eq!(s.zoom, 100);
    assert_eq!(s.pan, pt(0, 0));
    assert_eq!(s.thickness, 3);
    assert_eq!(s.font_size, 20);
    assert_eq!(s.selected, None);
    assert!(s.undo_stack.is_empty() && s.redo_stack.is_empty());
}
