//! Sidecar and export path derivation.
//!
//! Paths are handled as byte strings. The file name is the part after
//! the last `/`; its extension is the part after the last `.` of that
//! name, provided the dot is not the name's first byte (a leading dot
//! marks a hidden file, not an extension) — the same rules the
//! platform's path type uses.

use vstd::prelude::*;

verus! {

/// The index right after the last `/`, or 0: where the file name
/// starts.
pub open spec fn name_start(p: Seq<u8>) -> int
    decreases p.len(),
{
    if p.len() == 0 {
        0
    } else if p.last() == 47 {
        p.len() as int
    } else {
        name_start(p.drop_last())
    }
}

/// The index right after the last `.`, or 0.
pub open spec fn last_dot(p: Seq<u8>) -> int
    decreases p.len(),
{
    if p.len() == 0 {
        0
    } else if p.last() == 46 {
        p.len() as int
    } else {
        last_dot(p.drop_last())
    }
}

/// Whether the path's file name has an extension: a `.` somewhere
/// after the name's first byte.
pub open spec fn has_ext(p: Seq<u8>) -> bool {
    last_dot(p) >= name_start(p) + 2
}

/// The bytes of `".annotz"`.
pub open spec fn annotz_suffix() -> Seq<u8> {
    seq![46u8, 97u8, 110u8, 110u8, 111u8, 116u8, 122u8]
}

/// The sidecar path of an image path: the image's extension is
/// replaced by itself with `.annotz` appended — so the path gains
/// `.annotz` when it has an extension, and `..annotz` when it has
/// none.
pub open spec fn annotz_path_spec(p: Seq<u8>) -> Seq<u8> {
    if has_ext(p) {
        p + annotz_suffix()
    } else {
        p + seq![46u8] + annotz_suffix()
    }
}

/// The bytes of `"_annotated.png"`.
pub open spec fn export_suffix() -> Seq<u8> {
    seq![95u8, 97u8, 110u8, 110u8, 111u8, 116u8, 97u8, 116u8, 101u8, 100u8, 46u8, 112u8, 110u8, 103u8]
}

/// The export path of an image path: the file name's stem (the name
/// without its extension) with `_annotated.png` appended, in the same
/// directory.
pub open spec fn export_path_spec(p: Seq<u8>) -> Seq<u8> {
    if has_ext(p) {
        p.take(last_dot(p) - 1) + export_suffix()
    } else {
        p + export_suffix()
    }
}

/// The index right after the last occurrence of `b`, or 0, by a
/// backward scan.
fn scan_last(p: &Vec<u8>, b: u8) -> (r: usize)
    ensures
        b == 47 ==> r == name_start(p@),
        b == 46 ==> r == last_dot(p@),
{
    let mut i: usize = p.len();
    proof {
        assert(p@.take(i as int) =~= p@);
    }
    while i > 0
        invariant
            0 <= i <= p@.len(),
            b == 47 ==> name_start(p@) == name_start(p@.take(i as int)),
            b == 46 ==> last_dot(p@) == last_dot(p@.take(i as int)),
        decreases i,
    {
        if p[i - 1] == b {
            proof {
                let pre = p@.take(i as int);
                assert(pre.last() == p@[i as int - 1]);
            }
            return i;
        }
        proof {
            let pre = p@.take(i as int);
            assert(pre.last() == p@[i as int - 1]);
            assert(pre.drop_last() =~= p@.take(i as int - 1));
        }
        i = i - 1;
    }
    proof {
        assert(p@.take(0) =~= Seq::<u8>::empty());
    }
    0
}

/// The sidecar path that stores a given image's annotations: the
/// image path with its extension replaced by the extension itself
/// plus `.annotz`.
pub fn annotz_path(image_path: &Vec<u8>) -> (r: Vec<u8>)
    ensures
        r@ == annotz_path_spec(image_path@),
{
    let ns = scan_last(image_path, 47);
    let ld = scan_last(image_path, 46);
    let mut out: Vec<u8> = Vec::new();
    let mut i: usize = 0;
    while i < image_path.len()
        invariant
            0 <= i <= image_path@.len(),
            out@ == image_path@.take(i as int),
        decreases image_path.len() - i,
    {
        out.push(image_path[i]);
        i = i + 1;
        proof {
            assert(image_path@.take(i as int) =~= image_path@.take(i as int - 1).push(
                image_path@[i as int - 1],
            ));
        }
    }
    proof {
        assert(image_path@.take(image_path@.len() as int) =~= image_path@);
    }
    if !(ld >= ns && ld >= 2 && ld - ns >= 2) {
        out.push(46);
    }
    out.push(46);
    out.push(97);
    out.push(110);
    out.push(110);
    out.push(111);
    out.push(116);
    out.push(122);
    proof {
        if has_ext(image_path@) {
            assert(out@ =~= image_path@ + annotz_suffix());
        } else {
            assert(out@ =~= image_path@ + seq![46u8] + annotz_suffix());
        }
    }
    out
}

/// The export path for a given image: the image's stem with
/// `_annotated.png` appended, in the same directory.
pub fn export_path(image_path: &Vec<u8>) -> (r: Vec<u8>)
    ensures
        r@ == export_path_spec(image_path@),
{
    let ns = scan_last(image_path, 47);
    let ld = scan_last(image_path, 46);
    let keep: usize = if ld >= ns && ld >= 2 && ld - ns >= 2 {
        ld - 1
    } else {
        image_path.len()
    };
    let mut out: Vec<u8> = Vec::new();
    let mut i: usize = 0;
    proof {
        lemma_last_dot_in_range(image_path@);
    }
    while i < keep
        invariant
            0 <= i <= keep <= image_path@.len(),
            out@ == image_path@.take(i as int),
        decreases keep - i,
    {
        out.push(image_path[i]);
        i = i + 1;
        proof {
            assert(image_path@.take(i as int) =~= image_path@.take(i as int - 1).push(
                image_path@[i as int - 1],
            ));
        }
    }
    out.push(95);
    out.push(97);
    out.push(110);
    out.push(110);
    out.push(111);
    out.push(116);
    out.push(97);
    out.push(116);
    out.push(101);
    out.push(100);
    out.push(46);
    out.push(112);
    out.push(110);
    out.push(103);
    proof {
        if has_ext(image_path@) {
            assert(out@ =~= image_path@.take(last_dot(image_path@) - 1) + export_suffix());
        } else {
            assert(image_path@.take(image_path@.len() as int) =~= image_path@);
            assert(out@ =~= image_path@ + export_suffix());
        }
    }
    out
}

/// The last-dot marker never points past the end of the path.
proof fn lemma_last_dot_in_range(p: Seq<u8>)
    ensures
        0 <= last_dot(p) <= p.len(),
        0 <= name_start(p) <= p.len(),
    decreases p.len(),
{
    if p.len() > 0 {
        lemma_last_dot_in_range(p.drop_last());
    }
}

} // verus!
