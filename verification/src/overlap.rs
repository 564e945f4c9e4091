use vstd::prelude::*;

use crate::components::{connected_components, label_at, labels_wf, lemma_max_label_contains, max_label};
use crate::connectivity::{fg, flood_fill, lemma_reach_fg, reach};
use crate::grid::{lemma_grid_index, Mask};
use crate::raster::luma_pixel;
use crate::components::lemma_div_mod_grid;
use crate::RefineError;

verus! {

/// The foreground of the label image: pixels whose luma is nonzero.
pub open spec fn label_fg(buf: Seq<u8>, i: int) -> bool {
    luma_pixel(buf[4 * i], buf[4 * i + 1], buf[4 * i + 2]) != 0
}

/// The query mask hits linear pixel `i` (first channel nonzero).
pub open spec fn query_hit(buf: Seq<u8>, i: int) -> bool {
    buf[4 * i] != 0
}

/// The output pixel `j` is painted white: it has a label whose
/// component touches the query.
pub open spec fn white_px(labels: Seq<u32>, flags: Seq<bool>, j: int) -> bool {
    labels[j] != 0 && flags[labels[j] as int]
}

/// The first `i` output pixels hold white or transparent RGBA bytes as
/// `white_px` says.
pub open spec fn out_prefix_ok(out: Seq<u8>, labels: Seq<u32>, flags: Seq<bool>, i: int) -> bool {
    forall|j: int|
        #![trigger out[4 * j]]
        0 <= j < i ==> {
            &&& out[4 * j] == (if white_px(labels, flags, j) { 255u8 } else { 0u8 })
            &&& out[4 * j + 1] == (if white_px(labels, flags, j) { 255u8 } else { 0u8 })
            &&& out[4 * j + 2] == (if white_px(labels, flags, j) { 255u8 } else { 0u8 })
            &&& out[4 * j + 3] == (if white_px(labels, flags, j) { 255u8 } else { 0u8 })
        }
}

/// Resolves label/mask overlap: the connected components of the label
/// image (by nonzero luma, 8-connectivity) that share a pixel with the
/// query mask (by nonzero first channel) are returned as a white RGBA
/// mask, all other pixels transparent.
#[verifier::rlimit(50)]
pub fn find_overlapping_region(label: Vec<u8>, mask: Vec<u8>, width: usize, height: usize) -> (r:
    Result<Vec<u8>, RefineError>)
    requires
        width * height < 0xffff_ffff,
        width <= 0xffff_ffff,
        height <= 0xffff_ffff,
    ensures
        (label@.len() != 4 * (width * height) || mask@.len() != 4 * (width * height))
            ==> r === Err(RefineError::DecodeFailure),
        (label@.len() == 4 * (width * height) && mask@.len() == 4 * (width * height))
            ==> r is Ok,
        r matches Ok(out) ==> out@.len() == 4 * (width * height)
            && (exists|lm: Mask| overlap_result(lm, label@, mask@, out@,
                width as int, height as int)),
{
    let ll = label.len();
    let ml = mask.len();
    proof {
        assert(0 <= width * height && 4 * (width * height) >= width * height)
            by (nonlinear_arith);
    }
    let n = match width.checked_mul(height) {
        Some(n) => n,
        None => {
            return Err(RefineError::DecodeFailure);
        }
    };
    let four_n = match n.checked_mul(4) {
        Some(v) => v,
        None => {
            return Err(RefineError::DecodeFailure);
        }
    };
    if label.len() != four_n || mask.len() != four_n {
        return Err(RefineError::DecodeFailure);
    }
    proof {
        assert(4 * width * height == 4 * (width * height)) by (nonlinear_arith);
    }
    let lum = crate::raster::rgba_to_luma(&label, width, height);
    let mut lmdata: Vec<bool> = Vec::new();
    let mut i: usize = 0;
    while i < n
        invariant
            lum@.len() == n,
            n == width * height,
            i <= n,
            lmdata@.len() == i,
            forall|j: int| 0 <= j < i ==> lmdata@[j] == (lum@[j] > 0),
        decreases n - i,
    {
        lmdata.push(lum[i] > 0);
        i = i + 1;
    }
    let lm = Mask { width, height, data: lmdata };
    let ghost glm = lm;
    proof {
        assert(lm.wf());
        assert forall|j: int| 0 <= j < n implies lm.data@[j] == label_fg(label@, j) by {
            assert(lum@[j] == luma_pixel(
                label@[4 * j],
                label@[4 * j + 1],
                label@[4 * j + 2],
            ));
        }
    }
    let cc = connected_components(&lm);
    let labels = cc.0;
    let count = cc.1;
    let mut flags: Vec<bool> = Vec::new();
    let flags_len = count as usize + 1;
    let mut v: usize = 0;
    while v < flags_len
        invariant
            v <= flags_len,
            flags@.len() == v,
            forall|k: int| 0 <= k < v ==> !flags@[k],
        decreases flags_len - v,
    {
        flags.push(false);
        v = v + 1;
    }
    let mut i: usize = 0;
    while i < n
        invariant
            mask@.len() == 4 * n,
            4 * n <= usize::MAX,
            n == width * height,
            glm == lm,
            lm.wf(),
            lm.width == width,
            lm.height == height,
            labels@.len() == n,
            labels_wf(lm, labels@),
            count as int == max_label(labels@),
            flags@.len() == count as int + 1,
            i <= n,
            forall|k: int| 0 <= k <= count as int ==> ((#[trigger] flags@[k]) <==> (exists|j: int|
                0 <= j < i && labels@[j] == k && labels@[j] != 0 && #[trigger] query_hit(
                    mask@,
                    j,
                ))),
        decreases n - i,
    {
        let l = labels[i];
        proof {
            lemma_max_label_contains(labels@, i as int);
        }
        if l != 0 && mask[4 * i] != 0 {
            flags.set(l as usize, true);
            proof {
                assert(query_hit(mask@, i as int));
            }
        } else {
            proof {
                assert(labels@[i as int] == 0 || !query_hit(mask@, i as int));
            }
        }
        i = i + 1;
    }
    let mut out: Vec<u8> = Vec::new();
    let mut i: usize = 0;
    while i < n
        invariant
            mask@.len() == 4 * n,
            4 * n <= usize::MAX,
            n == width * height,
            glm == lm,
            lm.wf(),
            lm.width == width,
            lm.height == height,
            labels@.len() == n,
            labels_wf(lm, labels@),
            count as int == max_label(labels@),
            flags@.len() == count as int + 1,
            forall|k: int| 0 <= k <= count as int ==> ((#[trigger] flags@[k]) <==> (exists|j: int|
                0 <= j < n && labels@[j] == k && labels@[j] != 0 && #[trigger] query_hit(
                    mask@,
                    j,
                ))),
            i <= n,
            out@.len() == 4 * i,
            out_prefix_ok(out@, labels@, flags@, i as int),
        decreases n - i,
    {
        let l = labels[i];
        proof {
            lemma_max_label_contains(labels@, i as int);
        }
        let white = l != 0 && flags[l as usize];
        let ghost opre = out@;
        let byte: u8 = if white { 255 } else { 0 };
        out.push(byte);
        out.push(byte);
        out.push(byte);
        out.push(byte);
        proof {
            assert(out@ =~= opre + seq![byte, byte, byte, byte]);
            assert(out@.len() == 4 * i + 4);
            assert(white == white_px(labels@, flags@, i as int));
            assert forall|j: int|
                #![trigger out@[4 * j]]
                0 <= j < i + 1 implies {
                &&& out@[4 * j] == (if white_px(labels@, flags@, j) { 255u8 } else { 0u8 })
                &&& out@[4 * j + 1] == (if white_px(labels@, flags@, j) { 255u8 } else { 0u8 })
                &&& out@[4 * j + 2] == (if white_px(labels@, flags@, j) { 255u8 } else { 0u8 })
                &&& out@[4 * j + 3] == (if white_px(labels@, flags@, j) { 255u8 } else { 0u8 })
            } by {
                if j < i as int {
                    assert(out@[4 * j] == opre[4 * j]);
                    assert(out@[4 * j + 1] == opre[4 * j + 1]);
                    assert(out@[4 * j + 2] == opre[4 * j + 2]);
                    assert(out@[4 * j + 3] == opre[4 * j + 3]);
                    assert(opre[4 * j] == (if white_px(labels@, flags@, j) { 255u8 } else { 0u8 }));
                } else {
                    assert(out@[4 * j] == byte);
                    assert(out@[4 * j + 1] == byte);
                    assert(out@[4 * j + 2] == byte);
                    assert(out@[4 * j + 3] == byte);
                }
            }
            assert(out_prefix_ok(out@, labels@, flags@, i + 1));
        }
        i = i + 1;
    }
    proof {
        lemma_overlap_result(lm, label@, mask@, out@, labels@, flags@, count, width as int,
            height as int);
        assert(overlap_result(lm, label@, mask@, out@, width as int, height as int));
        assert(exists|q: Mask| overlap_result(q, label@, mask@, out@, width as int,
            height as int));
        assert(out@.len() == 4 * (width * height));
    }
    Ok(out)
}

/// What the overlap resolver returns, relative to the label foreground
/// mask `lm`: a pixel is painted white exactly when it lies in a label
/// component that touches the query mask; in particular the result
/// covers every query pixel that lies on label foreground.
pub open spec fn overlap_result(
    lm: Mask,
    label: Seq<u8>,
    mask: Seq<u8>,
    out: Seq<u8>,
    w: int,
    h: int,
) -> bool {
    &&& lm.wf()
    &&& lm.width == w
    &&& lm.height == h
    &&& (forall|i: int| 0 <= i < w * h ==> lm.data@[i] == #[trigger] label_fg(label, i))
    &&& (forall|x: int, y: int|
        #![trigger lm.at(x, y)]
        lm.in_bounds(x, y) ==> {
            let white = fg(lm, x, y) && (exists|qx: int, qy: int|
                reach(lm, x, y, qx, qy) && #[trigger] query_hit(mask, qy * w + qx));
            &&& out[4 * (y * w + x)] == (if white { 255u8 } else { 0u8 })
            &&& out[4 * (y * w + x) + 1] == (if white { 255u8 } else { 0u8 })
            &&& out[4 * (y * w + x) + 2] == (if white { 255u8 } else { 0u8 })
            &&& out[4 * (y * w + x) + 3] == (if white { 255u8 } else { 0u8 })
        })
    &&& (forall|x: int, y: int|
        #![trigger lm.at(x, y)]
        lm.in_bounds(x, y) && lm.at(x, y) && query_hit(mask, y * w + x)
            ==> out[4 * (y * w + x)] == 255u8)
}

proof fn lemma_overlap_result(
    lm: Mask,
    label: Seq<u8>,
    mask: Seq<u8>,
    out: Seq<u8>,
    labels: Seq<u32>,
    flags: Seq<bool>,
    count: u32,
    w: int,
    h: int,
)
    requires
        lm.wf(),
        lm.width == w,
        lm.height == h,
        w * h <= 0xffff_ffff,
        forall|i: int| 0 <= i < w * h ==> lm.data@[i] == #[trigger] label_fg(label, i),
        labels.len() == w * h,
        labels_wf(lm, labels),
        count as int == max_label(labels),
        flags.len() == count as int + 1,
        forall|k: int| 0 <= k <= count as int ==> ((#[trigger] flags[k]) <==> (exists|j: int|
            0 <= j < w * h && labels[j] == k && labels[j] != 0 && #[trigger] query_hit(mask, j))),
        out.len() == 4 * (w * h),
        out_prefix_ok(out, labels, flags, w * h),
    ensures
        overlap_result(lm, label, mask, out, w, h),
{
    assert forall|x: int, y: int| lm.in_bounds(x, y) implies {
        let white = fg(lm, x, y) && (exists|qx: int, qy: int|
            reach(lm, x, y, qx, qy) && #[trigger] query_hit(mask, qy * w + qx));
        &&& out[4 * (y * w + x)] == (if white { 255u8 } else { 0u8 })
        &&& out[4 * (y * w + x) + 1] == (if white { 255u8 } else { 0u8 })
        &&& out[4 * (y * w + x) + 2] == (if white { 255u8 } else { 0u8 })
        &&& out[4 * (y * w + x) + 3] == (if white { 255u8 } else { 0u8 })
    } by {
        let p = y * w + x;
        lemma_grid_index(w, h, x, y);
        lemma_max_label_contains(labels, p);
        assert(label_at(lm, labels, x, y) == labels[p]);
        let exec_white = white_px(labels, flags, p);
        assert(out[4 * p] == (if exec_white { 255u8 } else { 0u8 }));
        let spec_white = fg(lm, x, y) && (exists|qx: int, qy: int|
            reach(lm, x, y, qx, qy) && #[trigger] query_hit(mask, qy * w + qx));
        if exec_white {
            assert(lm.at(x, y));
            let j = choose|j: int|
                0 <= j < w * h && labels[j] == labels[p] && labels[j] != 0 && #[trigger]
                    query_hit(mask, j);
            let qx = j % w;
            let qy = j / w;
            lemma_div_mod_grid(j, w, h);
            assert(label_at(lm, labels, qx, qy) == labels[j]);
            assert(fg(lm, qx, qy)) by {
                if !lm.at(qx, qy) {
                    assert(label_at(lm, labels, qx, qy) == 0);
                }
            }
            assert(reach(lm, x, y, qx, qy));
            assert(query_hit(mask, qy * w + qx));
            assert(spec_white);
        }
        if spec_white {
            assert(lm.at(x, y));
            assert(labels[p] != 0);
            let (qx, qy) = choose|qx: int, qy: int|
                reach(lm, x, y, qx, qy) && #[trigger] query_hit(mask, qy * w + qx);
            lemma_reach_fg(lm, x, y, qx, qy);
            lemma_grid_index(w, h, qx, qy);
            let j = qy * w + qx;
            assert(label_at(lm, labels, qx, qy) == labels[j]);
            assert(labels[j] == labels[p]);
            assert(labels[j] != 0);
            assert(flags[labels[p] as int]);
            assert(exec_white);
        }
        assert(exec_white == spec_white);
    }
    assert forall|x: int, y: int|
        lm.in_bounds(x, y) && lm.at(x, y) && query_hit(mask, y * w + x)
        implies out[4 * (y * w + x)] == 255u8 by {
        let p = y * w + x;
        lemma_grid_index(w, h, x, y);
        lemma_max_label_contains(labels, p);
        assert(label_at(lm, labels, x, y) == labels[p]);
        assert(labels[p] != 0);
        assert(flags[labels[p] as int]);
    }
}

/// Builds the union of the two masks, finds the first query pixel in
/// raster order, and returns the single 8-connected region of the union
/// reachable from it, as a 0/255 byte mask; an all-zero mask when the
/// query is empty.
pub fn get_overlapping_region_with_mask(
    label: Vec<bool>,
    mask: Vec<bool>,
    width: usize,
    height: usize,
) -> (r: Result<Vec<u8>, RefineError>)
    ensures
        (label@.len() != width * height || mask@.len() != width * height)
            ==> r === Err(RefineError::DecodeFailure),
        (label@.len() == width * height && mask@.len() == width * height)
            ==> (r matches Ok(out) && out@.len() == width * height
                && region_result(label@, mask@, out@, width as int, height as int)),
{
    let ll = label.len();
    let ml = mask.len();
    let n = match width.checked_mul(height) {
        Some(n) => n,
        None => {
            return Err(RefineError::DecodeFailure);
        }
    };
    if label.len() != n || mask.len() != n {
        return Err(RefineError::DecodeFailure);
    }
    let mut combined: Vec<bool> = Vec::new();
    let mut seed: usize = n;
    let mut i: usize = 0;
    while i < n
        invariant
            label@.len() == n,
            mask@.len() == n,
            n == width * height,
            i <= n,
            combined@.len() == i,
            forall|j: int| 0 <= j < i ==> combined@[j] == (label@[j] || mask@[j]),
            seed == n || (seed < i && mask@[seed as int]
                && (forall|j: int| 0 <= j < seed ==> !mask@[j])),
            seed == n ==> (forall|j: int| 0 <= j < i ==> !mask@[j]),
        decreases n - i,
    {
        combined.push(label[i] || mask[i]);
        if seed == n && mask[i] {
            seed = i;
        }
        i = i + 1;
    }
    let cm = Mask { width, height, data: combined };
    let ghost gcm = cm;
    proof {
        assert(cm.wf());
    }
    if seed == n {
        let mut out: Vec<u8> = Vec::new();
        let mut j: usize = 0;
        while j < n
            invariant
                j <= n,
                out@.len() == j,
                forall|k: int| 0 <= k < j ==> out@[k] == 0u8,
            decreases n - j,
        {
            out.push(0);
            j = j + 1;
        }
        return Ok(out);
    }
    let sx = seed % width;
    let sy = seed / width;
    proof {
        lemma_div_mod_grid(seed as int, width as int, height as int);
        assert(cm.at(sx as int, sy as int)) by {
            assert(cm.data@[seed as int] == (label@[seed as int] || mask@[seed as int]));
        }
    }
    let visited = flood_fill(&cm, sx, sy);
    let mut out: Vec<u8> = Vec::new();
    let mut j: usize = 0;
    while j < n
        invariant
            gcm == cm,
            cm.wf(),
            cm.width == width,
            cm.height == height,
            n == width * height,
            visited.wf(),
            visited.width == width,
            visited.height == height,
            forall|x: int, y: int| visited.in_bounds(x, y)
                ==> (visited.at(x, y) <==> reach(cm, sx as int, sy as int, x, y)),
            sx < width,
            sy < height,
            j <= n,
            out@.len() == j,
            forall|k: int| 0 <= k < j ==> out@[k] == (if visited.data@[k] { 255u8 } else { 0u8 }),
        decreases n - j,
    {
        let b = visited.data[j];
        out.push(if b { 255 } else { 0 });
        j = j + 1;
    }
    proof {
        lemma_region_result(label@, mask@, out@, cm, visited, seed as int, sx as int, sy as int,
            width as int, height as int);
    }
    Ok(out)
}

/// What the flood-fill variant returns: an all-zero mask when the query
/// has no pixel; otherwise exactly the 8-connected region of the union
/// mask around the first query pixel in raster order.
pub open spec fn region_result(label: Seq<bool>, mask: Seq<bool>, out: Seq<u8>, w: int, h: int)
    -> bool {
    if forall|i: int| 0 <= i < w * h ==> !mask[i] {
        forall|i: int| 0 <= i < w * h ==> out[i] == 0u8
    } else {
        exists|s0: int|
            {
                &&& 0 <= s0 < w * h
                &&& mask[s0]
                &&& (forall|j: int| 0 <= j < s0 ==> !mask[j])
                &&& (exists|cm: Mask|
                    {
                        &&& cm.wf()
                        &&& cm.width == w
                        &&& cm.height == h
                        &&& (forall|i: int| 0 <= i < w * h
                            ==> cm.data@[i] == (label[i] || mask[i]))
                        &&& (forall|x: int, y: int| cm.in_bounds(x, y)
                            ==> out[y * w + x] == (if reach(cm, s0 % w, s0 / w, x, y) {
                                255u8
                            } else {
                                0u8
                            }))
                    })
            }
    }
}

proof fn lemma_region_result(
    label: Seq<bool>,
    mask: Seq<bool>,
    out: Seq<u8>,
    cm: Mask,
    visited: Mask,
    seed: int,
    sx: int,
    sy: int,
    w: int,
    h: int,
)
    requires
        cm.wf(),
        cm.width == w,
        cm.height == h,
        w > 0,
        label.len() == w * h,
        mask.len() == w * h,
        0 <= seed < w * h,
        mask[seed],
        forall|j: int| 0 <= j < seed ==> !mask[j],
        sx == seed % w,
        sy == seed / w,
        forall|i: int| 0 <= i < w * h ==> cm.data@[i] == (label[i] || mask[i]),
        visited.wf(),
        visited.width == w,
        visited.height == h,
        forall|x: int, y: int| visited.in_bounds(x, y)
            ==> (visited.at(x, y) <==> reach(cm, sx, sy, x, y)),
        out.len() == w * h,
        forall|k: int| 0 <= k < w * h ==> out[k] == (if visited.data@[k] { 255u8 } else { 0u8 }),
    ensures
        region_result(label, mask, out, w, h),
{
    assert(!(forall|i: int| 0 <= i < w * h ==> !mask[i]));
    assert forall|x: int, y: int| cm.in_bounds(x, y)
        implies out[y * w + x] == (if reach(cm, seed % w, seed / w, x, y) {
            255u8
        } else {
            0u8
        }) by {
        lemma_grid_index(w, h, x, y);
        assert(visited.at(x, y) == visited.data@[y * w + x]);
        assert(visited.at(x, y) <==> reach(cm, sx, sy, x, y));
    }
    assert(region_result(label, mask, out, w, h));
}

} // verus!
