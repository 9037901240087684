//! The sidecar persistence codec.
//!
//! The sidecar is a text format of one record per annotation, each on
//! its own line: a one-byte kind discriminant (`A` for an arrow, `R`
//! for a rectangle, `T` for a text label), the record's numeric fields,
//! and a terminating newline. Every number is written in a fixed
//! width: a sign byte (`+` or `-`) followed by exactly 19 decimal
//! digits, so records are self-delimiting. A text record carries its
//! content as a byte count followed by the raw bytes (which may
//! include newlines).
//!
//! Loading tolerates anything: a file that does not parse — or whose
//! values fall outside the engine's documented ranges — yields the
//! empty list, never an error. A well-formed list round-trips exactly
//! (`lemma_codec_round_trip`). A hand-crafted text record with empty
//! content is accepted as literal: the decoder does not re-validate
//! content emptiness, which is only checked when interactive entry
//! commits.

use vstd::prelude::*;
use vstd::arithmetic::div_mod::lemma_fundamental_div_mod;
use crate::model::{
    ann_wf,
    anns_view,
    anns_wf,
    coord_ok,
    AnnView,
    Annotation,
    Color,
    Pt,
    MAX_COORD,
    MAX_FONT,
    MAX_TEXT_LEN,
    MAX_THICKNESS,
};

verus! {

/// Powers of ten.
pub open spec fn pow10(k: nat) -> int
    decreases k,
{
    if k == 0 {
        1
    } else {
        10 * pow10((k - 1) as nat)
    }
}

pub open spec fn is_digit(b: u8) -> bool {
    48 <= b <= 57
}

/// `n` written as exactly `k` decimal digits, most significant first
/// (the low `k` digits of `n`).
pub open spec fn enc_fix(n: nat, k: nat) -> Seq<u8>
    decreases k,
{
    if k == 0 {
        Seq::empty()
    } else {
        enc_fix(n / 10, (k - 1) as nat).push((48 + (n % 10)) as u8)
    }
}

/// The value of the `k` digit bytes starting at `p`.
pub open spec fn fix_val(s: Seq<u8>, p: int, k: nat) -> int
    decreases k,
{
    if k == 0 {
        0
    } else {
        fix_val(s, p, (k - 1) as nat) * 10 + (s[p + k - 1] - 48)
    }
}

/// A signed number: a sign byte then 19 digits.
pub open spec fn enc_num(v: int) -> Seq<u8> {
    if v < 0 {
        seq![45u8] + enc_fix((-v) as nat, 19)
    } else {
        seq![43u8] + enc_fix(v as nat, 19)
    }
}

pub open spec fn enc_color(c: Color) -> Seq<u8> {
    enc_num(c.r as int) + enc_num(c.g as int) + enc_num(c.b as int) + enc_num(c.a as int)
}

/// One record: kind discriminant, fields, newline.
pub open spec fn enc_ann(a: AnnView) -> Seq<u8> {
    match a {
        AnnView::Arrow { start, end, color, thickness } => seq![65u8] + enc_num(start.x as int)
            + enc_num(start.y as int) + enc_num(end.x as int) + enc_num(end.y as int) + enc_color(
            color,
        ) + enc_num(thickness as int) + seq![10u8],
        AnnView::Rectangle { min, max, color, thickness } => seq![82u8] + enc_num(min.x as int)
            + enc_num(min.y as int) + enc_num(max.x as int) + enc_num(max.y as int) + enc_color(
            color,
        ) + enc_num(thickness as int) + seq![10u8],
        AnnView::Text { pos, content, font_size, color } => seq![84u8] + enc_num(pos.x as int)
            + enc_num(pos.y as int) + enc_num(font_size as int) + enc_color(color) + enc_num(
            content.len() as int,
        ) + content + seq![10u8],
    }
}

/// The whole sidecar: the records in list order.
pub open spec fn enc_list(l: Seq<AnnView>) -> Seq<u8>
    decreases l.len(),
{
    if l.len() == 0 {
        Seq::empty()
    } else {
        enc_ann(l[0]) + enc_list(l.drop_first())
    }
}

/// Parse one signed number at `p`: the value and the next position,
/// or nothing if the bytes there are not a number in range for `i64`.
pub open spec fn sp_parse_num(s: Seq<u8>, p: int) -> Option<(int, int)> {
    if p < 0 || p + 20 > s.len() {
        None
    } else if s[p] != 43 && s[p] != 45 {
        None
    } else if exists|j: int| p + 1 <= j < p + 20 && !is_digit(#[trigger] s[j]) {
        None
    } else {
        let m = fix_val(s, p + 1, 19);
        if s[p] == 45 {
            if m <= 0x8000_0000_0000_0000 {
                Some((-m, p + 20))
            } else {
                None
            }
        } else {
            if m <= 0x7FFF_FFFF_FFFF_FFFF {
                Some((m, p + 20))
            } else {
                None
            }
        }
    }
}

/// Parse four color channels at `p`.
pub open spec fn sp_parse_color(s: Seq<u8>, p: int) -> Option<(Color, int)> {
    match sp_parse_num(s, p) {
        None => None,
        Some((r, p1)) => match sp_parse_num(s, p1) {
            None => None,
            Some((g, p2)) => match sp_parse_num(s, p2) {
                None => None,
                Some((b, p3)) => match sp_parse_num(s, p3) {
                    None => None,
                    Some((a, p4)) => if 0 <= r <= 255 && 0 <= g <= 255 && 0 <= b <= 255 && 0 <= a
                        <= 255 {
                        Some((Color { r: r as u8, g: g as u8, b: b as u8, a: a as u8 }, p4))
                    } else {
                        None
                    },
                },
            },
        },
    }
}

pub open spec fn in_coord_range(v: int) -> bool {
    -MAX_COORD <= v <= MAX_COORD
}

/// Parse one record at `p`: the annotation value and the position
/// after its newline, or nothing. Values outside the engine's
/// documented ranges are rejected, so everything loaded is
/// well-formed; empty text content is accepted as literal.
pub open spec fn sp_parse_ann(s: Seq<u8>, p: int) -> Option<(AnnView, int)> {
    if p < 0 || p >= s.len() {
        None
    } else if s[p] == 65 || s[p] == 82 {
        match sp_parse_num(s, p + 1) {
            None => None,
            Some((x0, p1)) => match sp_parse_num(s, p1) {
                None => None,
                Some((y0, p2)) => match sp_parse_num(s, p2) {
                    None => None,
                    Some((x1, p3)) => match sp_parse_num(s, p3) {
                        None => None,
                        Some((y1, p4)) => match sp_parse_color(s, p4) {
                            None => None,
                            Some((c, p5)) => match sp_parse_num(s, p5) {
                                None => None,
                                Some((t, p6)) => if in_coord_range(x0) && in_coord_range(y0)
                                    && in_coord_range(x1) && in_coord_range(y1) && 0 <= t
                                    <= MAX_THICKNESS && p6 < s.len() && s[p6] == 10 {
                                    let a = if s[p] == 65 {
                                        AnnView::Arrow {
                                            start: Pt { x: x0 as i64, y: y0 as i64 },
                                            end: Pt { x: x1 as i64, y: y1 as i64 },
                                            color: c,
                                            thickness: t as i64,
                                        }
                                    } else {
                                        AnnView::Rectangle {
                                            min: Pt { x: x0 as i64, y: y0 as i64 },
                                            max: Pt { x: x1 as i64, y: y1 as i64 },
                                            color: c,
                                            thickness: t as i64,
                                        }
                                    };
                                    Some((a, p6 + 1))
                                } else {
                                    None
                                },
                            },
                        },
                    },
                },
            },
        }
    } else if s[p] == 84 {
        match sp_parse_num(s, p + 1) {
            None => None,
            Some((x0, p1)) => match sp_parse_num(s, p1) {
                None => None,
                Some((y0, p2)) => match sp_parse_num(s, p2) {
                    None => None,
                    Some((fs, p3)) => match sp_parse_color(s, p3) {
                        None => None,
                        Some((c, p4)) => match sp_parse_num(s, p4) {
                            None => None,
                            Some((n, p5)) => if in_coord_range(x0) && in_coord_range(y0) && 1 <= fs
                                <= MAX_FONT && 0 <= n <= MAX_TEXT_LEN && p5 + n < s.len() && s[p5
                                + n] == 10 {
                                Some(
                                    (
                                        AnnView::Text {
                                            pos: Pt { x: x0 as i64, y: y0 as i64 },
                                            content: s.subrange(p5, p5 + n),
                                            font_size: fs as i64,
                                            color: c,
                                        },
                                        p5 + n + 1,
                                    ),
                                )
                            } else {
                                None
                            },
                        },
                    },
                },
            },
        }
    } else {
        None
    }
}

/// Parse a whole sidecar from `p` to the end of the bytes: the list,
/// or nothing if any record is malformed.
pub open spec fn sp_parse_list(s: Seq<u8>, p: int) -> Option<Seq<AnnView>>
    decreases s.len() - p,
{
    if p == s.len() {
        Some(Seq::empty())
    } else {
        match sp_parse_ann(s, p) {
            None => None,
            Some((a, q)) => if p < q <= s.len() {
                match sp_parse_list(s, q) {
                    None => None,
                    Some(rest) => Some(seq![a] + rest),
                }
            } else {
                None
            },
        }
    }
}

/// What loading yields: the parsed list, or the empty list when the
/// bytes do not parse.
pub open spec fn sp_decoded(s: Seq<u8>) -> Seq<AnnView> {
    match sp_parse_list(s, 0) {
        Some(l) => l,
        None => Seq::empty(),
    }
}

proof fn lemma_pow10_pos(k: nat)
    ensures
        pow10(k) >= 1,
    decreases k,
{
    if k > 0 {
        lemma_pow10_pos((k - 1) as nat);
    }
}

/// A fixed-width digit block has exactly its width in bytes, all of
/// them digits.
proof fn lemma_enc_fix_shape(n: nat, k: nat)
    ensures
        enc_fix(n, k).len() == k,
        forall|j: int| 0 <= j < k ==> is_digit(#[trigger] enc_fix(n, k)[j]),
    decreases k,
{
    if k > 0 {
        lemma_enc_fix_shape(n / 10, (k - 1) as nat);
        assert(0 <= n % 10 < 10);
    }
}

/// Every encoded number is 20 bytes: a sign byte, then 19 digits.
proof fn lemma_enc_num_shape(v: int)
    ensures
        enc_num(v).len() == 20,
        enc_num(v)[0] == 45u8 || enc_num(v)[0] == 43u8,
        v < 0 ==> enc_num(v)[0] == 45u8,
        v >= 0 ==> enc_num(v)[0] == 43u8,
        forall|j: int| 1 <= j < 20 ==> is_digit(#[trigger] enc_num(v)[j]),
{
    if v < 0 {
        lemma_enc_fix_shape((-v) as nat, 19);
    } else {
        lemma_enc_fix_shape(v as nat, 19);
    }
}

/// Dividing by ten stays below a tenth of the bound.
proof fn lemma_div10_bound(n: nat, m: int)
    requires
        m >= 1,
        n < 10 * m,
    ensures
        n as int / 10 < m,
{
    lemma_fundamental_div_mod(n as int, 10);
    let q = n as int / 10;
    if q >= m {
        assert(10 * q >= 10 * m);
        assert(false);
    }
}

/// Reading back a fixed-width digit block yields the encoded value.
proof fn lemma_fix_val_of_enc(s: Seq<u8>, p: int, n: nat, k: nat)
    requires
        n < pow10(k),
        0 <= p,
        p + k <= s.len(),
        s.subrange(p, p + k) == enc_fix(n, k),
    ensures
        fix_val(s, p, k) == n,
    decreases k,
{
    lemma_enc_fix_shape(n, k);
    if k == 0 {
        assert(pow10(0) == 1);
    } else {
        lemma_enc_fix_shape(n / 10, (k - 1) as nat);
        assert(s.subrange(p, p + (k - 1)) =~= enc_fix(n / 10, (k - 1) as nat)) by {
            assert forall|j: int| 0 <= j < k - 1 implies #[trigger] s.subrange(p, p + (k - 1))[j]
                == enc_fix(n / 10, (k - 1) as nat)[j] by {
                assert(s.subrange(p, p + k)[j] == enc_fix(n, k)[j]);
            }
        }
        lemma_pow10_pos((k - 1) as nat);
        lemma_div10_bound(n, pow10((k - 1) as nat));
        lemma_fix_val_of_enc(s, p, n / 10, (k - 1) as nat);
        assert(s[p + k - 1] == enc_fix(n, k)[k - 1]);
        assert(enc_fix(n, k)[k - 1] == (48 + (n % 10)) as u8);
        lemma_fundamental_div_mod(n as int, 10);
    }
}

/// Reading back an encoded number yields the value and steps over its
/// 20 bytes.
proof fn lemma_parse_num_of_enc(s: Seq<u8>, p: int, v: int)
    requires
        -0x8000_0000_0000_0000 <= v <= 0x7FFF_FFFF_FFFF_FFFF,
        0 <= p,
        p + 20 <= s.len(),
        s.subrange(p, p + 20) == enc_num(v),
    ensures
        sp_parse_num(s, p) == Some((v, p + 20)),
{
    lemma_enc_num_shape(v);
    assert(s[p] == enc_num(v)[0]) by {
        assert(s.subrange(p, p + 20)[0] == enc_num(v)[0]);
    }
    assert forall|j: int| p + 1 <= j < p + 20 implies is_digit(#[trigger] s[j]) by {
        assert(s.subrange(p, p + 20)[j - p] == enc_num(v)[j - p]);
    }
    let m: nat = if v < 0 {
        (-v) as nat
    } else {
        v as nat
    };
    assert(s.subrange(p + 1, p + 20) =~= enc_fix(m, 19)) by {
        assert forall|j: int| 0 <= j < 19 implies s.subrange(p + 1, p + 20)[j] == enc_fix(m, 19)[j] by {
            assert(s.subrange(p, p + 20)[j + 1] == enc_num(v)[j + 1]);
            lemma_enc_fix_shape(m, 19);
        }
    }
    assert(pow10(19) == 10_000_000_000_000_000_000) by {
        reveal_with_fuel(pow10, 21);
    }
    lemma_fix_val_of_enc(s, p + 1, m, 19);
}

/// Reading back an encoded color yields the color and steps over its
/// 80 bytes.
proof fn lemma_parse_color_of_enc(s: Seq<u8>, p: int, c: Color)
    requires
        0 <= p,
        p + 80 <= s.len(),
        s.subrange(p, p + 80) == enc_color(c),
    ensures
        sp_parse_color(s, p) == Some((c, p + 80)),
{
    lemma_enc_num_shape(c.r as int);
    lemma_enc_num_shape(c.g as int);
    lemma_enc_num_shape(c.b as int);
    lemma_enc_num_shape(c.a as int);
    let e = enc_color(c);
    assert(s.subrange(p, p + 20) =~= enc_num(c.r as int)) by {
        assert forall|j: int| 0 <= j < 20 implies s.subrange(p, p + 20)[j] == enc_num(c.r as int)[j] by {
            assert(s.subrange(p, p + 80)[j] == e[j]);
        }
    }
    assert(s.subrange(p + 20, p + 40) =~= enc_num(c.g as int)) by {
        assert forall|j: int| 0 <= j < 20 implies s.subrange(p + 20, p + 40)[j] == enc_num(
            c.g as int,
        )[j] by {
            assert(s.subrange(p, p + 80)[j + 20] == e[j + 20]);
        }
    }
    assert(s.subrange(p + 40, p + 60) =~= enc_num(c.b as int)) by {
        assert forall|j: int| 0 <= j < 20 implies s.subrange(p + 40, p + 60)[j] == enc_num(
            c.b as int,
        )[j] by {
            assert(s.subrange(p, p + 80)[j + 40] == e[j + 40]);
        }
    }
    assert(s.subrange(p + 60, p + 80) =~= enc_num(c.a as int)) by {
        assert forall|j: int| 0 <= j < 20 implies s.subrange(p + 60, p + 80)[j] == enc_num(
            c.a as int,
        )[j] by {
            assert(s.subrange(p, p + 80)[j + 60] == e[j + 60]);
        }
    }
    lemma_parse_num_of_enc(s, p, c.r as int);
    lemma_parse_num_of_enc(s, p + 20, c.g as int);
    lemma_parse_num_of_enc(s, p + 40, c.b as int);
    lemma_parse_num_of_enc(s, p + 60, c.a as int);
}

/// The byte length of one record.
pub open spec fn enc_ann_len(a: AnnView) -> int {
    match a {
        AnnView::Arrow { .. } => 182,
        AnnView::Rectangle { .. } => 182,
        AnnView::Text { content, .. } => 162 + content.len() as int,
    }
}

proof fn lemma_enc_ann_len(a: AnnView)
    ensures
        enc_ann(a).len() == enc_ann_len(a),
{
    match a {
        AnnView::Arrow { start, end, color, thickness } => {
            lemma_enc_num_shape(start.x as int);
            lemma_enc_num_shape(start.y as int);
            lemma_enc_num_shape(end.x as int);
            lemma_enc_num_shape(end.y as int);
            lemma_enc_num_shape(color.r as int);
            lemma_enc_num_shape(color.g as int);
            lemma_enc_num_shape(color.b as int);
            lemma_enc_num_shape(color.a as int);
            lemma_enc_num_shape(thickness as int);
            assert(enc_ann(a) == seq![65u8] + enc_num(start.x as int) + enc_num(start.y as int)
                + enc_num(end.x as int) + enc_num(end.y as int) + enc_color(color) + enc_num(
                thickness as int,
            ) + seq![10u8]);
            assert(seq![65u8].len() == 1);
            assert(seq![10u8].len() == 1);
            assert(enc_color(color).len() == 80);
            assert(enc_ann(a).len() == 182);
        },
        AnnView::Rectangle { min, max, color, thickness } => {
            lemma_enc_num_shape(min.x as int);
            lemma_enc_num_shape(min.y as int);
            lemma_enc_num_shape(max.x as int);
            lemma_enc_num_shape(max.y as int);
            lemma_enc_num_shape(color.r as int);
            lemma_enc_num_shape(color.g as int);
            lemma_enc_num_shape(color.b as int);
            lemma_enc_num_shape(color.a as int);
            lemma_enc_num_shape(thickness as int);
            assert(enc_ann(a) == seq![82u8] + enc_num(min.x as int) + enc_num(min.y as int)
                + enc_num(max.x as int) + enc_num(max.y as int) + enc_color(color) + enc_num(
                thickness as int,
            ) + seq![10u8]);
            assert(seq![82u8].len() == 1);
            assert(seq![10u8].len() == 1);
            assert(enc_color(color).len() == 80);
            assert(enc_ann(a).len() == 182);
        },
        AnnView::Text { pos, content, font_size, color } => {
            lemma_enc_num_shape(pos.x as int);
            lemma_enc_num_shape(pos.y as int);
            lemma_enc_num_shape(font_size as int);
            lemma_enc_num_shape(color.r as int);
            lemma_enc_num_shape(color.g as int);
            lemma_enc_num_shape(color.b as int);
            lemma_enc_num_shape(color.a as int);
            lemma_enc_num_shape(content.len() as int);
            assert(enc_ann(a) == seq![84u8] + enc_num(pos.x as int) + enc_num(pos.y as int)
                + enc_num(font_size as int) + enc_color(color) + enc_num(content.len() as int)
                + content + seq![10u8]);
            assert(seq![84u8].len() == 1);
            assert(seq![10u8].len() == 1);
            assert(enc_color(color).len() == 80);
            assert(enc_ann(a).len() == 162 + content.len());
        },
    }
}

/// Reading back one encoded well-formed record yields the annotation
/// and steps over the record.
#[verifier::rlimit(100)]
proof fn lemma_parse_ann_of_enc(s: Seq<u8>, p: int, a: AnnView)
    requires
        ann_wf(a),
        0 <= p,
        p + enc_ann(a).len() <= s.len(),
        s.subrange(p, p + enc_ann(a).len()) == enc_ann(a),
    ensures
        sp_parse_ann(s, p) == Some((a, p + enc_ann(a).len())),
{
    lemma_enc_ann_len(a);
    let e = enc_ann(a);
    let el = e.len() as int;
    assert forall|j: int| 0 <= j < el implies s[p + j] == e[j] by {
        assert(s.subrange(p, p + el)[j] == e[j]);
    }
    match a {
        AnnView::Arrow { start, end, color, thickness } => {
            lemma_arrow_rect_fields(s, p, a, 65u8, start, end, color, thickness);
        },
        AnnView::Rectangle { min, max, color, thickness } => {
            lemma_arrow_rect_fields(s, p, a, 82u8, min, max, color, thickness);
        },
        AnnView::Text { pos, content, font_size, color } => {
            let n = content.len() as int;
            lemma_enc_num_shape(pos.x as int);
            lemma_enc_num_shape(pos.y as int);
            lemma_enc_num_shape(font_size as int);
            lemma_enc_num_shape(color.r as int);
            lemma_enc_num_shape(color.g as int);
            lemma_enc_num_shape(color.b as int);
            lemma_enc_num_shape(color.a as int);
            lemma_enc_num_shape(n);
            assert(enc_color(color).len() == 80);
            assert(e[0] == 84u8);
            assert(s.subrange(p, p + el)[0] == e[0]);
            assert(s[p] == 84u8);
            sub_match(s, p, e, p + 1, enc_num(pos.x as int), 1);
            sub_match(s, p, e, p + 21, enc_num(pos.y as int), 21);
            sub_match(s, p, e, p + 41, enc_num(font_size as int), 41);
            sub_match(s, p, e, p + 61, enc_color(color), 61);
            sub_match(s, p, e, p + 141, enc_num(n), 141);
            sub_match(s, p, e, p + 161, content, 161);
            lemma_parse_num_of_enc(s, p + 1, pos.x as int);
            lemma_parse_num_of_enc(s, p + 21, pos.y as int);
            lemma_parse_num_of_enc(s, p + 41, font_size as int);
            lemma_parse_color_of_enc(s, p + 61, color);
            lemma_parse_num_of_enc(s, p + 141, n);
            assert(s[p + 161 + n] == e[161 + n]);
            assert(e[161 + n] == 10u8);
            assert(s.subrange(p + 161, p + 161 + n) =~= content);
        },
    }
}

/// The bytes of `s` at offset `q` match the piece of `e` that starts
/// at offset `o`, given that `s` holds `e` at `p` (`q == p + o`).
proof fn sub_match(s: Seq<u8>, p: int, e: Seq<u8>, q: int, piece: Seq<u8>, o: int)
    requires
        0 <= p,
        q == p + o,
        0 <= o,
        o + piece.len() <= e.len(),
        p + e.len() <= s.len(),
        forall|j: int| 0 <= j < e.len() ==> s[p + j] == e[j],
        forall|j: int| 0 <= j < piece.len() ==> e[o + j] == piece[j],
    ensures
        s.subrange(q, q + piece.len()) == piece,
{
    assert(s.subrange(q, q + piece.len()) =~= piece);
}

/// The shared field layout of arrow and rectangle records.
#[verifier::rlimit(100)]
proof fn lemma_arrow_rect_fields(
    s: Seq<u8>,
    p: int,
    a: AnnView,
    tag: u8,
    p0: Pt,
    p1: Pt,
    color: Color,
    thickness: i64,
)
    requires
        ann_wf(a),
        0 <= p,
        p + 182 <= s.len(),
        enc_ann(a).len() == 182,
        s.subrange(p, p + 182) == enc_ann(a),
        enc_ann(a) == seq![tag] + enc_num(p0.x as int) + enc_num(p0.y as int) + enc_num(
            p1.x as int,
        ) + enc_num(p1.y as int) + enc_color(color) + enc_num(thickness as int) + seq![10u8],
        tag == 65u8 || tag == 82u8,
        coord_ok(p0),
        coord_ok(p1),
        0 <= thickness <= MAX_THICKNESS,
        a == (if tag == 65u8 {
            AnnView::Arrow { start: p0, end: p1, color, thickness }
        } else {
            AnnView::Rectangle { min: p0, max: p1, color, thickness }
        }),
    ensures
        sp_parse_ann(s, p) == Some((a, p + 182)),
{
    let e = enc_ann(a);
    lemma_enc_num_shape(p0.x as int);
    lemma_enc_num_shape(p0.y as int);
    lemma_enc_num_shape(p1.x as int);
    lemma_enc_num_shape(p1.y as int);
    lemma_enc_num_shape(thickness as int);
    lemma_enc_num_shape(color.r as int);
    lemma_enc_num_shape(color.g as int);
    lemma_enc_num_shape(color.b as int);
    lemma_enc_num_shape(color.a as int);
    assert(enc_color(color).len() == 80);
    assert forall|j: int| 0 <= j < 182 implies s[p + j] == e[j] by {
        assert(s.subrange(p, p + 182)[j] == e[j]);
    }
    assert(e[0] == tag);
    assert(s.subrange(p, p + 182)[0] == e[0]);
    assert(s[p] == tag);
    sub_match(s, p, e, p + 1, enc_num(p0.x as int), 1);
    sub_match(s, p, e, p + 21, enc_num(p0.y as int), 21);
    sub_match(s, p, e, p + 41, enc_num(p1.x as int), 41);
    sub_match(s, p, e, p + 61, enc_num(p1.y as int), 61);
    sub_match(s, p, e, p + 81, enc_color(color), 81);
    sub_match(s, p, e, p + 161, enc_num(thickness as int), 161);
    lemma_parse_num_of_enc(s, p + 1, p0.x as int);
    lemma_parse_num_of_enc(s, p + 21, p0.y as int);
    lemma_parse_num_of_enc(s, p + 41, p1.x as int);
    lemma_parse_num_of_enc(s, p + 61, p1.y as int);
    lemma_parse_color_of_enc(s, p + 81, color);
    lemma_parse_num_of_enc(s, p + 161, thickness as int);
    assert(s[p + 181] == e[181]);
    assert(e[181] == 10u8);
}

/// Appending a record to a list appends its bytes to the encoding.
pub proof fn lemma_enc_list_push(l: Seq<AnnView>, a: AnnView)
    ensures
        enc_list(l.push(a)) == enc_list(l) + enc_ann(a),
    decreases l.len(),
{
    if l.len() == 0 {
        assert(l.push(a)[0] == a);
        assert(l.push(a).drop_first() =~= Seq::<AnnView>::empty());
        assert(enc_list(l.push(a)) == enc_ann(a) + enc_list(Seq::empty()));
        assert(enc_ann(a) + Seq::empty() =~= enc_ann(a));
        assert(enc_list(l) + enc_ann(a) =~= enc_ann(a));
    } else {
        assert(l.push(a)[0] == l[0]);
        assert(l.push(a).drop_first() =~= l.drop_first().push(a));
        lemma_enc_list_push(l.drop_first(), a);
        assert(enc_ann(l[0]) + (enc_list(l.drop_first()) + enc_ann(a)) =~= (enc_ann(l[0])
            + enc_list(l.drop_first())) + enc_ann(a));
    }
}

/// Reading back an encoded well-formed list that reaches the end of
/// the bytes yields the list.
#[verifier::rlimit(100)]
proof fn lemma_parse_list_of_enc(s: Seq<u8>, p: int, l: Seq<AnnView>)
    requires
        anns_wf(l),
        0 <= p,
        p + enc_list(l).len() == s.len(),
        s.subrange(p, s.len() as int) == enc_list(l),
    ensures
        sp_parse_list(s, p) == Some(l),
    decreases l.len(),
{
    if l.len() == 0 {
        assert(p == s.len());
        assert(l =~= Seq::<AnnView>::empty());
    } else {
        let a = l[0];
        assert(ann_wf(a));
        let rest = l.drop_first();
        let ea = enc_ann(a);
        let la = ea.len() as int;
        lemma_enc_ann_len(a);
        assert(enc_list(l) == ea + enc_list(rest));
        assert forall|j: int| 0 <= j < enc_list(l).len() implies s[p + j] == enc_list(l)[j] by {
            assert(s.subrange(p, s.len() as int)[j] == enc_list(l)[j]);
        }
        assert(s.subrange(p, p + la) =~= ea);
        lemma_parse_ann_of_enc(s, p, a);
        let q = p + la;
        assert(la >= 102);
        assert(s.subrange(q, s.len() as int) =~= enc_list(rest)) by {
            assert forall|j: int| 0 <= j < enc_list(rest).len() implies s.subrange(
                q,
                s.len() as int,
            )[j] == enc_list(rest)[j] by {
                assert(s[p + (la + j)] == enc_list(l)[la + j]);
            }
        }
        assert(anns_wf(rest)) by {
            assert forall|i: int| 0 <= i < rest.len() implies ann_wf(#[trigger] rest[i]) by {
                assert(rest[i] == l[i + 1]);
            }
        }
        lemma_parse_list_of_enc(s, q, rest);
        assert(seq![a] + rest =~= l);
    }
}

/// Persistence round-trip law: decoding the encoding of any
/// well-formed annotation list yields that same list, in content and
/// order.
pub proof fn lemma_codec_round_trip(l: Seq<AnnView>)
    requires
        anns_wf(l),
    ensures
        sp_parse_list(enc_list(l), 0) == Some(l),
        sp_decoded(enc_list(l)) == l,
{
    let s = enc_list(l);
    assert(s.subrange(0, s.len() as int) =~= s);
    lemma_parse_list_of_enc(s, 0, l);
}

/// Append the low `k` decimal digits of `n`, most significant first.
fn emit_fix(out: &mut Vec<u8>, n: u64, k: usize)
    ensures
        final(out)@ == old(out)@ + enc_fix(n as nat, k as nat),
    decreases k,
{
    if k == 0 {
        proof {
            assert(out@ =~= old(out)@ + enc_fix(n as nat, 0));
        }
    } else {
        emit_fix(out, n / 10, k - 1);
        let d: u8 = 48 + (n % 10) as u8;
        out.push(d);
        proof {
            assert(out@ =~= old(out)@ + enc_fix(n as nat, k as nat));
        }
    }
}

/// Append one signed fixed-width number.
fn emit_num(out: &mut Vec<u8>, v: i64)
    ensures
        final(out)@ == old(out)@ + enc_num(v as int),
{
    if v < 0 {
        out.push(45);
        let m: u64 = (-(v as i128)) as u64;
        emit_fix(out, m, 19);
        proof {
            assert(m as nat == (-(v as int)) as nat);
            assert(out@ =~= old(out)@ + enc_num(v as int));
        }
    } else {
        out.push(43);
        emit_fix(out, v as u64, 19);
        proof {
            assert(out@ =~= old(out)@ + enc_num(v as int));
        }
    }
}

fn emit_color(out: &mut Vec<u8>, c: Color)
    ensures
        final(out)@ == old(out)@ + enc_color(c),
{
    emit_num(out, c.r as i64);
    emit_num(out, c.g as i64);
    emit_num(out, c.b as i64);
    emit_num(out, c.a as i64);
    proof {
        assert(out@ =~= old(out)@ + enc_color(c));
    }
}

/// Append one record.
#[verifier::rlimit(100)]
fn emit_ann(out: &mut Vec<u8>, a: &Annotation)
    requires
        ann_wf(a@),
    ensures
        final(out)@ == old(out)@ + enc_ann(a@),
{
    match a {
        Annotation::Arrow { start, end, color, thickness } => {
            out.push(65);
            emit_num(out, start.x);
            emit_num(out, start.y);
            emit_num(out, end.x);
            emit_num(out, end.y);
            emit_color(out, *color);
            emit_num(out, *thickness);
            out.push(10);
            proof {
                assert(out@ =~= old(out)@ + enc_ann(a@));
            }
        },
        Annotation::Rectangle { min, max, color, thickness } => {
            out.push(82);
            emit_num(out, min.x);
            emit_num(out, min.y);
            emit_num(out, max.x);
            emit_num(out, max.y);
            emit_color(out, *color);
            emit_num(out, *thickness);
            out.push(10);
            proof {
                assert(out@ =~= old(out)@ + enc_ann(a@));
            }
        },
        Annotation::Text { pos, content, font_size, color } => {
            out.push(84);
            emit_num(out, pos.x);
            emit_num(out, pos.y);
            emit_num(out, *font_size);
            emit_color(out, *color);
            emit_num(out, content.len() as i64);
            let ghost mid = out@;
            let mut j: usize = 0;
            while j < content.len()
                invariant
                    0 <= j <= content.len(),
                    out@ == mid + content@.take(j as int),
                decreases content.len() - j,
            {
                out.push(content[j]);
                j = j + 1;
                proof {
                    assert(content@.take(j as int) =~= content@.take(j as int - 1).push(
                        content@[j as int - 1],
                    ));
                    assert(out@ =~= mid + content@.take(j as int));
                }
            }
            proof {
                assert(content@.take(content@.len() as int) =~= content@);
            }
            out.push(10);
            proof {
                assert(out@ =~= old(out)@ + enc_ann(a@));
            }
        },
    }
}

/// Serialize the full annotation list for the sidecar file.
pub fn encode_annotations(list: &Vec<Annotation>) -> (out: Vec<u8>)
    requires
        anns_wf(anns_view(list@)),
    ensures
        out@ == enc_list(anns_view(list@)),
{
    let ghost l = anns_view(list@);
    let mut out: Vec<u8> = Vec::new();
    let mut i: usize = 0;
    proof {
        assert(l.take(0) =~= Seq::<AnnView>::empty());
        assert(out@ =~= enc_list(l.take(0)));
    }
    while i < list.len()
        invariant
            0 <= i <= list.len(),
            l == anns_view(list@),
            l.len() == list@.len(),
            anns_wf(l),
            out@ == enc_list(l.take(i as int)),
        decreases list.len() - i,
    {
        assert(l[i as int] == list@[i as int]@);
        assert(ann_wf(l[i as int]));
        emit_ann(&mut out, &list[i]);
        proof {
            lemma_enc_list_push(l.take(i as int), l[i as int]);
            assert(l.take(i as int).push(l[i as int]) =~= l.take(i as int + 1));
        }
        i = i + 1;
    }
    proof {
        assert(l.take(list@.len() as int) =~= l);
    }
    out
}

/// Parse one signed fixed-width number.
fn p_num(s: &Vec<u8>, p: usize) -> (r: Option<(i64, usize)>)
    requires
        p <= s@.len(),
    ensures
        match r {
            None => sp_parse_num(s@, p as int) is None,
            Some((v, q)) => sp_parse_num(s@, p as int) == Some((v as int, q as int)) && q == p + 20
                && q <= s@.len(),
        },
{
    if s.len() - p < 20 {
        return None;
    }
    let sign: u8 = s[p];
    if sign != 43 && sign != 45 {
        return None;
    }
    let slen: usize = s.len();
    let mut acc: u64 = 0;
    let mut j: usize = 0;
    proof {
        reveal_with_fuel(pow10, 21);
    }
    while j < 19
        invariant
            0 <= j <= 19,
            slen == s@.len(),
            p + 20 <= slen,
            acc == fix_val(s@, p as int + 1, j as nat),
            acc < pow10(j as nat),
            pow10(19) == 10_000_000_000_000_000_000,
            forall|jj: int| 0 <= jj < j ==> is_digit(#[trigger] s@[p + 1 + jj]),
        decreases 19 - j,
    {
        let b: u8 = s[p + 1 + j];
        if b < 48 || b > 57 {
            proof {
                assert(!is_digit(s@[p as int + 1 + j as int]));
            }
            return None;
        }
        proof {
            lemma_pow10_mono(j as nat, 18);
            assert(pow10(j as nat + 1) == 10 * pow10(j as nat));
        }
        acc = acc * 10 + (b - 48) as u64;
        j = j + 1;
    }
    let m: u64 = acc;
    proof {
        assert(forall|jj: int| p + 1 <= jj < p + 20 ==> is_digit(#[trigger] s@[jj])) by {
            assert forall|jj: int| p + 1 <= jj < p + 20 implies is_digit(#[trigger] s@[jj]) by {
                assert(is_digit(s@[p + 1 + (jj - p - 1)]));
            }
        }
    }
    if sign == 45 {
        if m > 9_223_372_036_854_775_808 {
            return None;
        }
        let v: i64 = if m == 9_223_372_036_854_775_808 {
            i64::MIN
        } else {
            -(m as i64)
        };
        Some((v, p + 20))
    } else {
        if m > 9_223_372_036_854_775_807 {
            return None;
        }
        Some((m as i64, p + 20))
    }
}

/// Powers of ten grow with the exponent.
proof fn lemma_pow10_mono(a: nat, b: nat)
    requires
        a <= b,
    ensures
        pow10(a) <= pow10(b),
    decreases b,
{
    if a < b {
        lemma_pow10_mono(a, (b - 1) as nat);
        lemma_pow10_pos((b - 1) as nat);
    }
}

/// Parse four color channels.
fn p_color(s: &Vec<u8>, p: usize) -> (r: Option<(Color, usize)>)
    requires
        p <= s@.len(),
    ensures
        match r {
            None => sp_parse_color(s@, p as int) is None,
            Some((c, q)) => sp_parse_color(s@, p as int) == Some((c, q as int)) && p < q
                <= s@.len(),
        },
{
    let (rv, p1) = match p_num(s, p) {
        None => {
            return None;
        },
        Some(x) => x,
    };
    let (gv, p2) = match p_num(s, p1) {
        None => {
            return None;
        },
        Some(x) => x,
    };
    let (bv, p3) = match p_num(s, p2) {
        None => {
            return None;
        },
        Some(x) => x,
    };
    let (av, p4) = match p_num(s, p3) {
        None => {
            return None;
        },
        Some(x) => x,
    };
    if rv < 0 || rv > 255 || gv < 0 || gv > 255 || bv < 0 || bv > 255 || av < 0 || av > 255 {
        return None;
    }
    Some((Color { r: rv as u8, g: gv as u8, b: bv as u8, a: av as u8 }, p4))
}

/// Parse one record.
fn p_ann(s: &Vec<u8>, p: usize) -> (r: Option<(Annotation, usize)>)
    requires
        p <= s@.len(),
    ensures
        match r {
            None => sp_parse_ann(s@, p as int) is None,
            Some((ann, q)) => sp_parse_ann(s@, p as int) == Some((ann@, q as int)) && p < q
                <= s@.len() && ann_wf(ann@),
        },
{
    if p >= s.len() {
        return None;
    }
    let tag: u8 = s[p];
    if tag == 65 || tag == 82 {
        let (x0, p1) = match p_num(s, p + 1) {
            None => {
                return None;
            },
            Some(x) => x,
        };
        let (y0, p2) = match p_num(s, p1) {
            None => {
                return None;
            },
            Some(x) => x,
        };
        let (x1, p3) = match p_num(s, p2) {
            None => {
                return None;
            },
            Some(x) => x,
        };
        let (y1, p4) = match p_num(s, p3) {
            None => {
                return None;
            },
            Some(x) => x,
        };
        let (c, p5) = match p_color(s, p4) {
            None => {
                return None;
            },
            Some(x) => x,
        };
        let (t, p6) = match p_num(s, p5) {
            None => {
                return None;
            },
            Some(x) => x,
        };
        let coords_ok = -MAX_COORD <= x0 && x0 <= MAX_COORD && -MAX_COORD <= y0 && y0 <= MAX_COORD
            && -MAX_COORD <= x1 && x1 <= MAX_COORD && -MAX_COORD <= y1 && y1 <= MAX_COORD;
        if coords_ok && 0 <= t && t <= MAX_THICKNESS && p6 < s.len() && s[p6] == 10 {
            let ann = if tag == 65 {
                Annotation::Arrow {
                    start: Pt { x: x0, y: y0 },
                    end: Pt { x: x1, y: y1 },
                    color: c,
                    thickness: t,
                }
            } else {
                Annotation::Rectangle {
                    min: Pt { x: x0, y: y0 },
                    max: Pt { x: x1, y: y1 },
                    color: c,
                    thickness: t,
                }
            };
            Some((ann, p6 + 1))
        } else {
            None
        }
    } else if tag == 84 {
        let (x0, p1) = match p_num(s, p + 1) {
            None => {
                return None;
            },
            Some(x) => x,
        };
        let (y0, p2) = match p_num(s, p1) {
            None => {
                return None;
            },
            Some(x) => x,
        };
        let (fs, p3) = match p_num(s, p2) {
            None => {
                return None;
            },
            Some(x) => x,
        };
        let (c, p4) = match p_color(s, p3) {
            None => {
                return None;
            },
            Some(x) => x,
        };
        let (n, p5) = match p_num(s, p4) {
            None => {
                return None;
            },
            Some(x) => x,
        };
        let coords_ok = -MAX_COORD <= x0 && x0 <= MAX_COORD && -MAX_COORD <= y0 && y0 <= MAX_COORD;
        if coords_ok && 1 <= fs && fs <= MAX_FONT && 0 <= n && n <= MAX_TEXT_LEN as i64 && (n
            as usize) < s.len() - p5 && s[p5 + (n as usize)] == 10 {
            let nn: usize = n as usize;
            let slen: usize = s.len();
            let mut content: Vec<u8> = Vec::new();
            let mut j: usize = 0;
            while j < nn
                invariant
                    0 <= j <= nn,
                    slen == s@.len(),
                    p5 + nn < slen,
                    content@ == s@.subrange(p5 as int, p5 as int + j as int),
                decreases nn - j,
            {
                content.push(s[p5 + j]);
                j = j + 1;
                proof {
                    assert(s@.subrange(p5 as int, p5 as int + j as int) =~= s@.subrange(
                        p5 as int,
                        p5 as int + j as int - 1,
                    ).push(s@[p5 as int + j as int - 1]));
                }
            }
            let ann = Annotation::Text {
                pos: Pt { x: x0, y: y0 },
                content,
                font_size: fs,
                color: c,
            };
            Some((ann, p5 + nn + 1))
        } else {
            None
        }
    } else {
        None
    }
}

/// The parse outcome continued after a known prefix of annotations.
pub open spec fn opt_cat(pre: Seq<AnnView>, o: Option<Seq<AnnView>>) -> Option<Seq<AnnView>> {
    match o {
        Some(l) => Some(pre + l),
        None => None,
    }
}

/// Deserialize a sidecar file. A malformed file — or one with values
/// outside the engine's ranges — yields the empty list; an empty file
/// yields the empty list; a text record with empty content is loaded
/// as literal. Everything returned is well-formed.
pub fn decode_annotations(data: &Vec<u8>) -> (r: Vec<Annotation>)
    ensures
        anns_view(r@) == sp_decoded(data@),
        anns_wf(anns_view(r@)),
{
    let ghost s = data@;
    let mut acc: Vec<Annotation> = Vec::new();
    let mut cur: usize = 0;
    proof {
        assert(anns_view(acc@) =~= Seq::<AnnView>::empty());
        assert(opt_cat(anns_view(acc@), sp_parse_list(s, 0)) == sp_parse_list(s, 0)) by {
            match sp_parse_list(s, 0) {
                Some(l) => {
                    assert(anns_view(acc@) + l =~= l);
                },
                None => {},
            }
        }
    }
    while cur < data.len()
        invariant
            0 <= cur <= data@.len(),
            s == data@,
            anns_wf(anns_view(acc@)),
            opt_cat(anns_view(acc@), sp_parse_list(s, cur as int)) == sp_parse_list(s, 0),
        decreases data@.len() - cur,
    {
        match p_ann(data, cur) {
            None => {
                proof {
                    assert(sp_parse_list(s, cur as int) is None);
                    assert(sp_parse_list(s, 0) is None);
                }
                return Vec::new();
            },
            Some((ann, q)) => {
                let ghost pre = anns_view(acc@);
                acc.push(ann);
                proof {
                    assert(anns_view(acc@) =~= pre.push(ann@));
                    assert(anns_wf(anns_view(acc@))) by {
                        assert forall|i: int| 0 <= i < anns_view(acc@).len() implies ann_wf(
                            #[trigger] anns_view(acc@)[i],
                        ) by {
                            if i < pre.len() {
                                assert(anns_view(acc@)[i] == pre[i]);
                            } else {
                                assert(anns_view(acc@)[i] == ann@);
                            }
                        }
                    }
                    assert(sp_parse_list(s, cur as int) == (match sp_parse_list(s, q as int) {
                        None => None::<Seq<AnnView>>,
                        Some(rest) => Some(seq![ann@] + rest),
                    }));
                    match sp_parse_list(s, q as int) {
                        None => {},
                        Some(rest) => {
                            assert(pre + (seq![ann@] + rest) =~= pre.push(ann@) + rest);
                        },
                    }
                }
                cur = q;
            },
        }
    }
    proof {
        assert(sp_parse_list(s, s.len() as int) == Some(Seq::<AnnView>::empty()));
        assert(anns_view(acc@) + Seq::<AnnView>::empty() =~= anns_view(acc@));
    }
    acc
}

} // verus!
