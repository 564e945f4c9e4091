use vstd::prelude::*;

use crate::grid::{Color, GrayGrid, Mask};
use crate::morpho::{dil_at, dilate, ero_at, erode, morpho_mask, selected_of, stage1_of};
use crate::otsu::{masked_pixels, otsu_in_mask, pix_val, the_otsu};
use crate::partition::spec_partition;
use crate::quadtree::BBox;
use crate::raster::{
    first_nonzero_color, luma_pixel, mask_from_rgba_alpha, mask_to_rgba, resize_nearest_of,
    resize_rgba_nearest, rgba_to_luma,
};
use crate::RefineError;

verus! {

/// `gray` is the luma image of the RGBA buffer.
pub open spec fn gray_of(image: Seq<u8>, w: int, h: int, gray: Seq<u8>) -> bool {
    &&& gray.len() == w * h
    &&& (forall|i: int| 0 <= i < w * h ==> gray[i] == luma_pixel(
        #[trigger] image[4 * i],
        image[4 * i + 1],
        image[4 * i + 2],
    ))
}

/// `m` is the mask read from the RGBA buffer's alpha channel.
pub open spec fn alpha_mask_of(maskbuf: Seq<u8>, w: int, h: int, m: Mask) -> bool {
    &&& m.wf()
    &&& m.width == w
    &&& m.height == h
    &&& (forall|i: int| 0 <= i < w * h ==> m.data@[i] == (#[trigger] maskbuf[4 * i + 3] > 128))
}

/// `refined` holds the pixels above the Otsu threshold of the masked
/// luma values (inverted when asked), intersected with the mask.
pub open spec fn otsu_refined_of(gray: Seq<u8>, m: Mask, inverse: bool, refined: Mask) -> bool {
    &&& refined.wf()
    &&& refined.width == m.width
    &&& refined.height == m.height
    &&& (forall|i: int| 0 <= i < refined.data@.len()
        ==> #[trigger] refined.data@[i] == (m.data@[i] && pix_val(gray[i], inverse)
            > the_otsu(masked_pixels(gray, m.data@, inverse))))
}

/// `col` is the display color of the RGBA mask buffer: the RGB of its
/// first pixel with a nonzero first byte, fully opaque; transparent
/// black when there is none.
pub open spec fn display_color_of(maskbuf: Seq<u8>, n: int, col: Color) -> bool {
    if forall|i: int| 0 <= i < n ==> #[trigger] maskbuf[4 * i] == 0 {
        col == (Color { r: 0, g: 0, b: 0, a: 0 })
    } else {
        exists|i: int|
            0 <= i < n && #[trigger] maskbuf[4 * i] > 0
            && (forall|j: int| 0 <= j < i ==> #[trigger] maskbuf[4 * j] == 0)
            && col == (Color {
                r: maskbuf[4 * i],
                g: maskbuf[4 * i + 1],
                b: maskbuf[4 * i + 2],
                a: 255,
            })
    }
}

/// `out` rasterizes the mask with the display color.
pub open spec fn rasterized_of(sel: Mask, col: Color, out: Seq<u8>) -> bool {
    &&& out.len() == 4 * (sel.width * sel.height)
    &&& (forall|i: int| 0 <= i < sel.width * sel.height ==> {
        &&& #[trigger] out[4 * i] == (if sel.data@[i] { col.r } else { 0u8 })
        &&& out[4 * i + 1] == (if sel.data@[i] { col.g } else { 0u8 })
        &&& out[4 * i + 2] == (if sel.data@[i] { col.b } else { 0u8 })
        &&& out[4 * i + 3] == (if sel.data@[i] { col.a } else { 0u8 })
    })
}

/// The whole adaptive-thresholding pipeline relates input buffers to the
/// output buffer: luma conversion, alpha-channel masking, Otsu
/// thresholding inside the mask, morphological refinement, component
/// selection, and rasterization with the mask's display color.
pub open spec fn otsu_segmentation_ok(
    image: Seq<u8>,
    maskbuf: Seq<u8>,
    opening: bool,
    inverse: bool,
    k: u8,
    conn: bool,
    w: int,
    h: int,
    out: Seq<u8>,
) -> bool {
    exists|gray: Seq<u8>, m: Mask, refined: Mask, m1: Mask, sel: Mask, col: Color|
        #![trigger gray_of(image, w, h, gray), alpha_mask_of(maskbuf, w, h, m),
            otsu_refined_of(gray, m, inverse, refined), stage1_of(refined, opening, k, m1),
            selected_of(m1, conn, sel), display_color_of(maskbuf, w * h, col)]
        {
            &&& gray_of(image, w, h, gray)
            &&& alpha_mask_of(maskbuf, w, h, m)
            &&& masked_pixels(gray, m.data@, inverse).len() > 0
            &&& otsu_refined_of(gray, m, inverse, refined)
            &&& stage1_of(refined, opening, k, m1)
            &&& selected_of(m1, conn, sel)
            &&& display_color_of(maskbuf, w * h, col)
            &&& rasterized_of(sel, col, out)
        }
}

/// The masked-pixel list is empty exactly when no pixel is masked.
pub proof fn lemma_masked_empty(gray: Seq<u8>, m: Seq<bool>, inverse: bool)
    requires
        gray.len() == m.len(),
    ensures
        masked_pixels(gray, m, inverse).len() == 0 <==> (forall|i: int|
            0 <= i < m.len() ==> !m[i]),
    decreases gray,
{
    if gray.len() > 0 {
        lemma_masked_empty(gray.drop_last(), m.drop_last(), inverse);
        if masked_pixels(gray, m, inverse).len() == 0 {
            assert forall|i: int| 0 <= i < m.len() implies !m[i] by {
                if i < m.len() - 1 {
                    assert(m.drop_last()[i] == m[i]);
                }
            }
        } else {
            if forall|i: int| 0 <= i < m.len() ==> !m[i] {
                assert(!m.last());
                assert forall|i: int| 0 <= i < m.drop_last().len()
                    implies !m.drop_last()[i] by {
                    assert(m.drop_last()[i] == m[i]);
                }
            }
        }
    }
}

/// Adaptive thresholding inside a coarse mask, followed by morphological
/// refinement: the Otsu threshold of the masked luma values is applied
/// image-wide and intersected with the mask; opening/closing and
/// largest-component selection are applied as requested; the result is
/// rasterized with the mask's display color (alpha forced opaque).
/// Fails with a decode error on buffers that do not match the declared
/// dimensions, and reports empty input when no pixel is masked; on
/// matching buffers with a masked pixel it always succeeds. The
/// pixel-count bound is inherited from the exact integer variance
/// comparison of `otsu_level`.
pub fn otsu_segmentation(
    image: Vec<u8>,
    mask: Vec<u8>,
    opening: bool,
    inverse: bool,
    kernel_size: u8,
    connectedness: bool,
    width: usize,
    height: usize,
) -> (r: Result<Vec<u8>, RefineError>)
    requires
        width * height <= 524288,
        width <= 0xffff_ffff,
        height <= 0xffff_ffff,
    ensures
        (image@.len() != 4 * (width * height) || mask@.len() != 4 * (width * height))
            ==> r === Err(RefineError::DecodeFailure),
        (image@.len() == 4 * (width * height) && mask@.len() == 4 * (width * height))
            ==> ((r === Err(RefineError::EmptyInput)) <==> !(exists|i: int|
                0 <= i < width * height && #[trigger] mask@[4 * i + 3] > 128)),
        (image@.len() == 4 * (width * height) && mask@.len() == 4 * (width * height)
            && (exists|i: int| 0 <= i < width * height && #[trigger] mask@[4 * i + 3] > 128))
            ==> r is Ok,
        r matches Ok(out) ==> otsu_segmentation_ok(
            image@,
            mask@,
            opening,
            inverse,
            kernel_size,
            connectedness,
            width as int,
            height as int,
            out@,
        ),
{
    let il = image.len();
    let ml = mask.len();
    proof {
        assert(0 <= width * height && 4 * (width * height) >= width * height
            && 4 * width * height == 4 * (width * height)) by (nonlinear_arith);
    }
    let n = match width.checked_mul(height) {
        Some(n) => n,
        None => {
            return Err(RefineError::DecodeFailure);
        }
    };
    let four_n = match n.checked_mul(4) {
        Some(v) => v,
        None => {
            return Err(RefineError::DecodeFailure);
        }
    };
    if image.len() != four_n || mask.len() != four_n {
        return Err(RefineError::DecodeFailure);
    }
    let col0 = first_nonzero_color(&mask, n);
    let col = Color { r: col0.r, g: col0.g, b: col0.b, a: if col0.r > 0 { 255 } else { col0.a } };
    let gray = rgba_to_luma(&image, width, height);
    let gg = match GrayGrid::from_vec(width, height, gray) {
        Ok(g) => g,
        Err(e) => {
            return Err(e);
        }
    };
    let m = match mask_from_rgba_alpha(&mask, width, height) {
        Ok(m) => m,
        Err(e) => {
            return Err(e);
        }
    };
    proof {
        lemma_masked_empty(gg.data@, m.data@, inverse);
    }
    let refined = match otsu_in_mask(&gg, &m, inverse) {
        Ok(rm) => rm,
        Err(e) => {
            proof {
                assert(e === RefineError::EmptyInput);
                assert forall|i: int| 0 <= i < width * height
                    implies !(#[trigger] mask@[4 * i + 3] > 128) by {
                    assert(m.data@[i] == (mask@[4 * i + 3] > 128));
                    assert(!m.data@[i]);
                }
            }
            return Err(e);
        }
    };
    proof {
        assert(exists|i: int| 0 <= i < m.data@.len() && #[trigger] m.data@[i]) by {
            if forall|i: int| 0 <= i < m.data@.len() ==> !(#[trigger] m.data@[i]) {
                assert(masked_pixels(gg.data@, m.data@, inverse).len() == 0);
            }
        }
        let wit = choose|i: int| 0 <= i < m.data@.len() && #[trigger] m.data@[i];
        assert(mask@[4 * wit + 3] > 128);
        assert(exists|i: int| 0 <= i < width * height && #[trigger] mask@[4 * i + 3] > 128);
    }
    let sel = morpho_mask(&refined, opening, connectedness, kernel_size);
    let out = mask_to_rgba(&sel, col);
    proof {
        assert(gray_of(image@, width as int, height as int, gg.data@));
        assert(alpha_mask_of(mask@, width as int, height as int, m));
        assert(otsu_refined_of(gg.data@, m, inverse, refined));
        assert(display_color_of(mask@, width as int * height as int, col)) by {
            if !(forall|i: int| 0 <= i < width * height ==> #[trigger] mask@[4 * i] == 0) {
                let i = choose|i: int|
                    0 <= i < width * height && #[trigger] mask@[4 * i] > 0
                    && (forall|j: int| 0 <= j < i ==> #[trigger] mask@[4 * j] == 0)
                    && col0 == (Color {
                        r: mask@[4 * i],
                        g: mask@[4 * i + 1],
                        b: mask@[4 * i + 2],
                        a: mask@[4 * i + 3],
                    });
                assert(col == (Color {
                    r: mask@[4 * i],
                    g: mask@[4 * i + 1],
                    b: mask@[4 * i + 2],
                    a: 255,
                }));
            }
        }
        assert(rasterized_of(sel, col, out@));
        let ghost sm = choose|m1: Mask|
            #[trigger] stage1_of(refined, opening, kernel_size, m1)
                && selected_of(m1, connectedness, sel);
        assert(otsu_segmentation_ok(image@, mask@, opening, inverse, kernel_size,
            connectedness, width as int, height as int, out@));
    }
    Ok(out)
}

/// Decomposes a resized RGBA mask into bounding boxes: the buffer is
/// resampled to the new dimensions with nearest-neighbor filtering,
/// turned into a foreground mask by nonzero luma, and partitioned by the
/// quadtree split/merge/tighten pipeline. Box coordinates refer to the
/// resized grid.
pub fn get_quad_tree_bbox(
    mask: Vec<u8>,
    width: usize,
    height: usize,
    new_width: usize,
    new_height: usize,
    max_depth: u32,
    min_size: u32,
) -> (r: Result<Vec<BBox>, RefineError>)
    requires
        1 <= width <= 0xffff_ffff,
        1 <= height <= 0xffff_ffff,
        1 <= new_width <= 0xffff_ffff,
        1 <= new_height <= 0xffff_ffff,
        4 * new_width * new_height <= usize::MAX,
        16 * (width * new_height) <= usize::MAX,
    ensures
        mask@.len() != 4 * (width * height) ==> r === Err(RefineError::DecodeFailure),
        mask@.len() == 4 * (width * height) ==> (r matches Ok(boxes) && exists|m: Mask|
            {
                &&& m.wf()
                &&& m.width == new_width
                &&& m.height == new_height
                &&& (forall|i: int| 0 <= i < new_width * new_height
                    ==> #[trigger] m.data@[i] == (luma_pixel(
                        resize_nearest_of(mask@, width as int, height as int,
                            new_width as int, new_height as int)[4 * i],
                        resize_nearest_of(mask@, width as int, height as int,
                            new_width as int, new_height as int)[4 * i + 1],
                        resize_nearest_of(mask@, width as int, height as int,
                            new_width as int, new_height as int)[4 * i + 2],
                    ) > 0))
                &&& boxes@ == spec_partition(m, max_depth, min_size)
            }),
{
    let ml = mask.len();
    proof {
        assert(0 <= width * height && 4 * (width * height) >= width * height
            && 4 * width * height == 4 * (width * height)
            && 4 * new_width * new_height == 4 * (new_width * new_height)
            && 0 <= new_width * new_height) by (nonlinear_arith);
    }
    let n = match width.checked_mul(height) {
        Some(n) => n,
        None => {
            return Err(RefineError::DecodeFailure);
        }
    };
    let four_n = match n.checked_mul(4) {
        Some(v) => v,
        None => {
            return Err(RefineError::DecodeFailure);
        }
    };
    if mask.len() != four_n {
        return Err(RefineError::DecodeFailure);
    }
    let resized = resize_rgba_nearest(&mask, width, height, new_width, new_height);
    let lum = rgba_to_luma(&resized, new_width, new_height);
    let nn = new_width * new_height;
    let mut data: Vec<bool> = Vec::new();
    let mut i: usize = 0;
    while i < nn
        invariant
            lum@.len() == nn,
            i <= nn,
            data@.len() == i,
            forall|j: int| 0 <= j < i ==> data@[j] == (lum@[j] > 0),
        decreases nn - i,
    {
        data.push(lum[i] > 0);
        i = i + 1;
    }
    let m = Mask { width: new_width, height: new_height, data };
    proof {
        assert(m.wf());
    }
    let boxes = crate::partition::quadtree_bounding_boxes(&m, max_depth, min_size);
    Ok(boxes)
}

/// `chm` is the binary view of one channel of an RGB buffer: a pixel is
/// set when that channel's byte is nonzero.
pub open spec fn channel_of(buf: Seq<u8>, w: int, h: int, c: int, chm: Mask) -> bool {
    &&& chm.wf()
    &&& chm.width == w
    &&& chm.height == h
    &&& (forall|i: int| 0 <= i < w * h ==> chm.data@[i] == (#[trigger] buf[3 * i + c] > 0))
}

/// One output byte of the edge image: the binary morphological gradient
/// of the channel with L1 radius 3, shaded by the input value where
/// erosion survives (white minus the value inside the shape, full white
/// on the rim, black away from the shape).
pub open spec fn edge_byte(buf: Seq<u8>, w: int, c: int, chm: Mask, x: int, y: int) -> u8 {
    if !dil_at(chm, 3, x, y) {
        0u8
    } else if ero_at(chm, 3, x, y) {
        (255 - buf[3 * (y * w + x) + c]) as u8
    } else {
        255u8
    }
}

/// The output buffer's channel `c` is the morphological gradient of the
/// input's channel `c`.
pub open spec fn edge_channel_ok(buf: Seq<u8>, w: int, h: int, c: int, out: Seq<u8>) -> bool {
    exists|chm: Mask|
        #[trigger] channel_of(buf, w, h, c, chm)
            && (forall|x: int, y: int| 0 <= x < w && 0 <= y < h
                ==> out[3 * (y * w + x) + c] == edge_byte(buf, w, c, chm, x, y))
}

/// The edge bytes of one channel, in row-major order.
fn edge_channel(buf: &Vec<u8>, width: usize, height: usize, c: usize) -> (r: Vec<u8>)
    requires
        buf@.len() == 3 * (width * height),
        c < 3,
    ensures
        r@.len() == width * height,
        exists|chm: Mask|
            #[trigger] channel_of(buf@, width as int, height as int, c as int, chm)
                && (forall|x: int, y: int| 0 <= x < width && 0 <= y < height
                    ==> r@[y * width + x] == edge_byte(buf@, width as int, c as int, chm, x, y)),
{
    let bl = buf.len();
    let n = width * height;
    proof {
        assert(3 * (width * height) >= width * height && 0 <= width * height)
            by (nonlinear_arith);
    }
    let mut chdata: Vec<bool> = Vec::new();
    let mut i: usize = 0;
    while i < n
        invariant
            buf@.len() == 3 * n,
            3 * n <= usize::MAX,
            n == width * height,
            c < 3,
            i <= n,
            chdata@.len() == i,
            forall|j: int| 0 <= j < i ==> chdata@[j] == (buf@[3 * j + c] > 0),
        decreases n - i,
    {
        chdata.push(buf[3 * i + c] > 0);
        i = i + 1;
    }
    let chm = Mask { width, height, data: chdata };
    let ghost gchm = chm;
    proof {
        assert(chm.wf());
        assert(channel_of(buf@, width as int, height as int, c as int, chm));
    }
    let d = dilate(&chm, 3);
    let e = erode(&chm, 3);
    let mut out: Vec<u8> = Vec::new();
    let mut y: usize = 0;
    while y < height
        invariant
            buf@.len() == 3 * n,
            3 * n <= usize::MAX,
            n == width * height,
            c < 3,
            gchm == chm,
            chm.wf(),
            chm.width == width,
            chm.height == height,
            crate::morpho::dilated_of(chm, 3, d),
            crate::morpho::eroded_of(chm, 3, e),
            y <= height,
            out@.len() == y * width,
            forall|x2: int, y2: int| 0 <= x2 < width && 0 <= y2 < y
                ==> out@[y2 * width + x2]
                    == edge_byte(buf@, width as int, c as int, gchm, x2, y2),
        decreases height - y,
    {
        let mut x: usize = 0;
        while x < width
            invariant
                buf@.len() == 3 * n,
                3 * n <= usize::MAX,
                n == width * height,
                c < 3,
                gchm == chm,
                chm.wf(),
                chm.width == width,
                chm.height == height,
                crate::morpho::dilated_of(chm, 3, d),
                crate::morpho::eroded_of(chm, 3, e),
                y < height,
                x <= width,
                out@.len() == y * width + x,
                forall|x2: int, y2: int| 0 <= x2 < width && 0 <= y2 < y
                    ==> out@[y2 * width + x2]
                        == edge_byte(buf@, width as int, c as int, gchm, x2, y2),
                forall|x2: int| 0 <= x2 < x
                    ==> out@[y * width + x2]
                        == edge_byte(buf@, width as int, c as int, gchm, x2, y as int),
            decreases width - x,
        {
            proof {
                crate::grid::lemma_grid_index(width as int, height as int, x as int, y as int);
            }
            let byte: u8 = if !d.get(x, y) {
                0
            } else if e.get(x, y) {
                255 - buf[3 * (y * width + x) + c]
            } else {
                255
            };
            out.push(byte);
            proof {
                assert forall|x2: int, y2: int| 0 <= x2 < width && 0 <= y2 < y
                    implies out@[y2 * width + x2]
                        == edge_byte(buf@, width as int, c as int, gchm, x2, y2) by {
                    assert(y2 * width + x2 < y * width) by (nonlinear_arith)
                        requires 0 <= x2 < (width as int) && 0 <= y2 && y2 < (y as int);
                }
            }
            x = x + 1;
        }
        proof {
            assert((y + 1) * width == y * width + width) by (nonlinear_arith);
        }
        y = y + 1;
    }
    proof {
        assert((height as int) * (width as int) == width * height) by (nonlinear_arith);
    }
    out
}

/// Detects the edges of a colored mask: each RGB channel is viewed as a
/// binary shape and replaced by its morphological gradient (dilation by
/// L1 radius 3 minus erosion by the same radius, with byte saturation).
/// The buffer must be raw RGB of the declared dimensions.
pub fn edge_detection(mask: Vec<u8>, width: usize, height: usize) -> (r: Result<
    Vec<u8>,
    RefineError,
>)
    ensures
        mask@.len() != 3 * (width * height) ==> r === Err(RefineError::DecodeFailure),
        mask@.len() == 3 * (width * height) ==> r is Ok,
        r matches Ok(out) ==> out@.len() == 3 * (width * height) && (forall|c: int|
            0 <= c < 3 ==> #[trigger] edge_channel_ok(mask@, width as int, height as int, c,
                out@)),
{
    let ml = mask.len();
    proof {
        assert(0 <= width * height && 3 * (width * height) >= width * height)
            by (nonlinear_arith);
    }
    let n = match width.checked_mul(height) {
        Some(n) => n,
        None => {
            return Err(RefineError::DecodeFailure);
        }
    };
    let three_n = match n.checked_mul(3) {
        Some(v) => v,
        None => {
            return Err(RefineError::DecodeFailure);
        }
    };
    if mask.len() != three_n {
        return Err(RefineError::DecodeFailure);
    }
    let ch0 = edge_channel(&mask, width, height, 0);
    let ch1 = edge_channel(&mask, width, height, 1);
    let ch2 = edge_channel(&mask, width, height, 2);
    let mut out: Vec<u8> = Vec::new();
    let mut i: usize = 0;
    while i < n
        invariant
            n == width * height,
            3 * n <= usize::MAX,
            ch0@.len() == n,
            ch1@.len() == n,
            ch2@.len() == n,
            i <= n,
            out@.len() == 3 * i,
            forall|j: int|
                #![trigger out@[3 * j]]
                0 <= j < i ==> out@[3 * j] == ch0@[j] && out@[3 * j + 1] == ch1@[j]
                    && out@[3 * j + 2] == ch2@[j],
        decreases n - i,
    {
        let ghost opre = out@;
        let b0 = ch0[i];
        let b1 = ch1[i];
        let b2 = ch2[i];
        out.push(b0);
        out.push(b1);
        out.push(b2);
        proof {
            assert(out@ =~= opre + seq![b0, b1, b2]);
            assert forall|j: int|
                #![trigger out@[3 * j]]
                0 <= j < i + 1 implies out@[3 * j] == ch0@[j] && out@[3 * j + 1] == ch1@[j]
                    && out@[3 * j + 2] == ch2@[j] by {
                if j < i as int {
                    assert(out@[3 * j] == opre[3 * j]);
                    assert(out@[3 * j + 1] == opre[3 * j + 1]);
                    assert(out@[3 * j + 2] == opre[3 * j + 2]);
                } else {
                    assert(out@[3 * j] == b0 && out@[3 * j + 1] == b1 && out@[3 * j + 2] == b2);
                }
            }
        }
        i = i + 1;
    }
    proof {
        let w = width as int;
        let h = height as int;
        let chm0 = choose|chm: Mask|
            #[trigger] channel_of(mask@, w, h, 0, chm)
                && (forall|x: int, y: int| 0 <= x < w && 0 <= y < h
                    ==> ch0@[y * w + x] == edge_byte(mask@, w, 0, chm, x, y));
        let chm1 = choose|chm: Mask|
            #[trigger] channel_of(mask@, w, h, 1, chm)
                && (forall|x: int, y: int| 0 <= x < w && 0 <= y < h
                    ==> ch1@[y * w + x] == edge_byte(mask@, w, 1, chm, x, y));
        let chm2 = choose|chm: Mask|
            #[trigger] channel_of(mask@, w, h, 2, chm)
                && (forall|x: int, y: int| 0 <= x < w && 0 <= y < h
                    ==> ch2@[y * w + x] == edge_byte(mask@, w, 2, chm, x, y));
        assert forall|x: int, y: int| 0 <= x < w && 0 <= y < h
            implies out@[3 * (y * w + x)] == edge_byte(mask@, w, 0, chm0, x, y)
                && out@[3 * (y * w + x) + 1] == edge_byte(mask@, w, 1, chm1, x, y)
                && out@[3 * (y * w + x) + 2] == edge_byte(mask@, w, 2, chm2, x, y) by {
            crate::grid::lemma_grid_index(w, h, x, y);
            assert(out@[3 * (y * w + x)] == ch0@[y * w + x]);
            assert(out@[3 * (y * w + x) + 1] == ch1@[y * w + x]);
            assert(out@[3 * (y * w + x) + 2] == ch2@[y * w + x]);
        }
        assert(edge_channel_ok(mask@, w, h, 0, out@)) by {
            assert(channel_of(mask@, w, h, 0, chm0));
        }
        assert(edge_channel_ok(mask@, w, h, 1, out@)) by {
            assert(channel_of(mask@, w, h, 1, chm1));
        }
        assert(edge_channel_ok(mask@, w, h, 2, out@)) by {
            assert(channel_of(mask@, w, h, 2, chm2));
        }
        assert forall|c: int| 0 <= c < 3
            implies #[trigger] edge_channel_ok(mask@, w, h, c, out@) by {
            assert(c == 0 || c == 1 || c == 2);
        }
    }
    Ok(out)
}

} // verus!
