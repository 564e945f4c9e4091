use vstd::prelude::*;

use crate::grid::{lemma_grid_index, Mask};
use crate::morpho::l1;

verus! {

broadcast use vstd::seq_lib::lemma_seq_contains_after_push;

/// The mean-field smoother reads pairwise messages from a fixed square
/// 7x7 window around each pixel, excluding the 3x3 immediate center.
pub open spec fn crf_neighbor(x: int, y: int, nx: int, ny: int) -> bool {
    &&& -3 <= nx - x <= 3
    &&& -3 <= ny - y <= 3
    &&& !(-1 <= nx - x <= 1 && -1 <= ny - y <= 1)
}

/// The neighborhood a pixel's pairwise term ranges over: the in-bounds
/// part of the 7x7 window around `(x, y)` minus the 3x3 center.
pub fn neighbor_coords(x: usize, y: usize, width: usize, height: usize) -> (r: Vec<
    (usize, usize),
>)
    requires
        x < width,
        y < height,
        width <= 0xffff_ffff,
        height <= 0xffff_ffff,
    ensures
        forall|i: int| 0 <= i < r@.len() ==> (#[trigger] r@[i]).0 < width && r@[i].1 < height
            && crf_neighbor(x as int, y as int, r@[i].0 as int, r@[i].1 as int),
        forall|nx: int, ny: int| 0 <= nx < width && 0 <= ny < height
            && crf_neighbor(x as int, y as int, nx, ny)
            ==> r@.contains((nx as usize, ny as usize)),
        r@.no_duplicates(),
{
    let mut r: Vec<(usize, usize)> = Vec::new();
    let mut dy: usize = 0;
    while dy < 7
        invariant
            x < width,
            y < height,
            width <= 0xffff_ffff,
            height <= 0xffff_ffff,
            dy <= 7,
            forall|i: int| 0 <= i < r@.len() ==> (#[trigger] r@[i]).0 < width && r@[i].1 < height
                && crf_neighbor(x as int, y as int, r@[i].0 as int, r@[i].1 as int),
            forall|nx: int, ny: int| 0 <= nx < width && 0 <= ny < height
                && crf_neighbor(x as int, y as int, nx, ny) && ny - y + 3 < dy
                ==> r@.contains((nx as usize, ny as usize)),
            forall|i: int| 0 <= i < r@.len() ==> ((#[trigger] r@[i]).1 as int) - y + 3 < dy,
            r@.no_duplicates(),
        decreases 7 - dy,
    {
        let mut dx: usize = 0;
        while dx < 7
            invariant
                x < width,
                y < height,
                width <= 0xffff_ffff,
                height <= 0xffff_ffff,
                dy < 7,
                dx <= 7,
                forall|i: int| 0 <= i < r@.len() ==> (#[trigger] r@[i]).0 < width
                    && r@[i].1 < height
                    && crf_neighbor(x as int, y as int, r@[i].0 as int, r@[i].1 as int),
                forall|nx: int, ny: int| 0 <= nx < width && 0 <= ny < height
                    && crf_neighbor(x as int, y as int, nx, ny) && ny - y + 3 < dy
                    ==> r@.contains((nx as usize, ny as usize)),
                forall|nx: int|
                    #![trigger r@.contains((nx as usize, (y + dy - 3) as usize))]
                    0 <= nx < width && 0 <= y + dy - 3 < height
                    && crf_neighbor(x as int, y as int, nx, y + dy - 3) && nx - x + 3 < dx
                    ==> r@.contains((nx as usize, (y + dy - 3) as usize)),
                forall|i: int| 0 <= i < r@.len() ==> ((#[trigger] r@[i]).1 as int) - y + 3 < dy
                    || (((#[trigger] r@[i]).1 as int) - y + 3 == dy
                        && ((r@[i]).0 as int) - x + 3 < dx),
                r@.no_duplicates(),
            decreases 7 - dx,
        {
            let center = dx >= 2 && dx <= 4 && dy >= 2 && dy <= 4;
            if !center {
                let nx_ok = if dx >= 3 { width - x > dx - 3 } else { x >= 3 - dx };
                let ny_ok = if dy >= 3 { height - y > dy - 3 } else { y >= 3 - dy };
                if nx_ok && ny_ok {
                    let nx = if dx >= 3 { x + (dx - 3) } else { x - (3 - dx) };
                    let ny = if dy >= 3 { y + (dy - 3) } else { y - (3 - dy) };
                    proof {
                        assert(nx as int == x + dx - 3 && ny as int == y + dy - 3);
                        assert(crf_neighbor(x as int, y as int, nx as int, ny as int));
                        assert forall|i: int| 0 <= i < r@.len()
                            implies r@[i] != (nx, ny) by {
                            assert((r@[i].1 as int) - y + 3 < dy
                                || ((r@[i].1 as int) - y + 3 == dy
                                    && (r@[i].0 as int) - x + 3 < dx));
                        }
                        crate::connectivity::lemma_push_fresh(r@, (nx, ny));
                    }
                    r.push((nx, ny));
                    proof {
                        assert(r@.contains((nx, ny)));
                    }
                }
            }
            dx = dx + 1;
        }
        proof {
            assert forall|nx: int, ny: int| 0 <= nx < width && 0 <= ny < height
                && crf_neighbor(x as int, y as int, nx, ny) && ny - y + 3 < dy + 1
                implies r@.contains((nx as usize, ny as usize)) by {
                if ny - y + 3 == dy as int {
                    assert(0 <= y + dy - 3 < height);
                    assert(r@.contains((nx as usize, (y + dy - 3) as usize)));
                }
            }
        }
        dy = dy + 1;
    }
    r
}

/// A foreground cell of `m` lies within L1 distance `k` of `(x, y)`.
pub open spec fn has_fg_within(m: Mask, x: int, y: int, k: int) -> bool {
    exists|a: int, b: int| m.in_bounds(a, b) && #[trigger] m.at(a, b) && l1(x, y, a, b) <= k
}

/// The L1 distance from one cell to the nearest foreground cell of
/// `src`, saturated at 255 (255 also when there is no foreground).
fn dist_px(src: &Mask, x: usize, y: usize) -> (r: u8)
    requires
        src.wf(),
        src.in_bounds(x as int, y as int),
    ensures
        r < 255 ==> has_fg_within(*src, x as int, y as int, r as int)
            && (r == 0 || !has_fg_within(*src, x as int, y as int, r as int - 1)),
        r == 255 ==> !has_fg_within(*src, x as int, y as int, 254),
{
    let width = src.width;
    let height = src.height;
    let mut mind: usize = 255;
    let mut b: usize = 0;
    while b < height
        invariant
            src.wf(),
            width == src.width,
            height == src.height,
            x < width,
            y < height,
            b <= height,
            mind <= 255,
            mind < 255 ==> has_fg_within(*src, x as int, y as int, mind as int),
            forall|aa: int, bb: int| src.in_bounds(aa, bb) && bb < b && #[trigger] src.at(aa, bb)
                ==> l1(x as int, y as int, aa, bb) >= mind,
        decreases height - b,
    {
        let mut a: usize = 0;
        while a < width
            invariant
                src.wf(),
                width == src.width,
                height == src.height,
                x < width,
                y < height,
                b < height,
                a <= width,
                mind <= 255,
                mind < 255 ==> has_fg_within(*src, x as int, y as int, mind as int),
                forall|aa: int, bb: int| src.in_bounds(aa, bb) && bb < b
                    && #[trigger] src.at(aa, bb) ==> l1(x as int, y as int, aa, bb) >= mind,
                forall|aa: int| 0 <= aa < a && #[trigger] src.at(aa, b as int)
                    ==> l1(x as int, y as int, aa, b as int) >= mind,
            decreases width - a,
        {
            if src.get(a, b) {
                let dx = if a >= x { a - x } else { x - a };
                let dyv = if b >= y { b - y } else { y - b };
                if dx < 255 && dyv < 255 && dx + dyv < mind {
                    mind = dx + dyv;
                    proof {
                        assert(l1(x as int, y as int, a as int, b as int) == mind);
                        assert(src.at(a as int, b as int));
                    }
                }
            }
            a = a + 1;
        }
        b = b + 1;
    }
    proof {
        if mind < 255 {
            if has_fg_within(*src, x as int, y as int, mind as int - 1) {
                let (aa, bb) = choose|aa: int, bb: int|
                    src.in_bounds(aa, bb) && #[trigger] src.at(aa, bb)
                        && l1(x as int, y as int, aa, bb) <= mind as int - 1;
            }
        } else {
            if has_fg_within(*src, x as int, y as int, 254) {
                let (aa, bb) = choose|aa: int, bb: int|
                    src.in_bounds(aa, bb) && #[trigger] src.at(aa, bb)
                        && l1(x as int, y as int, aa, bb) <= 254;
            }
        }
    }
    mind as u8
}

/// The pointwise saturated-L1-distance relation between a source mask
/// and a distance grid.
pub open spec fn dist_ok(src: Mask, d: Seq<u8>) -> bool {
    &&& d.len() == src.width * src.height
    &&& (forall|x: int, y: int| src.in_bounds(x, y) ==> {
        let dv = #[trigger] d[y * src.width + x];
        &&& (dv < 255 ==> has_fg_within(src, x, y, dv as int)
            && (dv == 0 || !has_fg_within(src, x, y, dv as int - 1)))
        &&& (dv == 255 ==> !has_fg_within(src, x, y, 254))
    })
}

/// The L1 distance transform of a mask: the saturated distance of every
/// cell to the nearest foreground cell.
pub fn distance_transform_l1(src: &Mask) -> (r: Vec<u8>)
    requires
        src.wf(),
    ensures
        dist_ok(*src, r@),
{
    let width = src.width;
    let height = src.height;
    let mut d: Vec<u8> = Vec::new();
    let mut y: usize = 0;
    while y < height
        invariant
            src.wf(),
            width == src.width,
            height == src.height,
            y <= height,
            d@.len() == y * width,
            forall|x2: int, y2: int| 0 <= x2 < width && 0 <= y2 < y ==> {
                let dv = #[trigger] d@[y2 * width + x2];
                &&& (dv < 255 ==> has_fg_within(*src, x2, y2, dv as int)
                    && (dv == 0 || !has_fg_within(*src, x2, y2, dv as int - 1)))
                &&& (dv == 255 ==> !has_fg_within(*src, x2, y2, 254))
            },
        decreases height - y,
    {
        let mut x: usize = 0;
        while x < width
            invariant
                src.wf(),
                width == src.width,
                height == src.height,
                y < height,
                x <= width,
                d@.len() == y * width + x,
                forall|x2: int, y2: int| 0 <= x2 < width && 0 <= y2 < y ==> {
                    let dv = #[trigger] d@[y2 * width + x2];
                    &&& (dv < 255 ==> has_fg_within(*src, x2, y2, dv as int)
                        && (dv == 0 || !has_fg_within(*src, x2, y2, dv as int - 1)))
                    &&& (dv == 255 ==> !has_fg_within(*src, x2, y2, 254))
                },
                forall|x2: int| 0 <= x2 < x ==> {
                    let dv = #[trigger] d@[y * width + x2];
                    &&& (dv < 255 ==> has_fg_within(*src, x2, y as int, dv as int)
                        && (dv == 0 || !has_fg_within(*src, x2, y as int, dv as int - 1)))
                    &&& (dv == 255 ==> !has_fg_within(*src, x2, y as int, 254))
                },
            decreases width - x,
        {
            proof {
                lemma_grid_index(width as int, height as int, x as int, y as int);
            }
            let dv = dist_px(src, x, y);
            d.push(dv);
            proof {
                assert forall|x2: int, y2: int| 0 <= x2 < width && 0 <= y2 < y implies {
                    let dv = #[trigger] d@[y2 * width + x2];
                    &&& (dv < 255 ==> has_fg_within(*src, x2, y2, dv as int)
                        && (dv == 0 || !has_fg_within(*src, x2, y2, dv as int - 1)))
                    &&& (dv == 255 ==> !has_fg_within(*src, x2, y2, 254))
                } by {
                    assert(y2 * width + x2 < y * width) by (nonlinear_arith)
                        requires 0 <= x2 < (width as int) && 0 <= y2 && y2 < (y as int);
                }
            }
            x = x + 1;
        }
        proof {
            assert((y + 1) * width == y * width + width) by (nonlinear_arith);
        }
        y = y + 1;
    }
    proof {
        assert((height as int) * (width as int) == width * height) by (nonlinear_arith);
    }
    d
}

/// What line thinning leaves of a binary mask; a function of the mask
/// and its dimensions alone.
pub uninterp spec fn skeleton_of(m: Seq<bool>, w: int, h: int) -> Seq<bool>;

/// Relies on `skeletonize::thin_image_edges` (modified marking method,
/// white foreground, unbounded iterations): deterministic thinning of a
/// binary image of the same dimensions. With fewer foreground pixels
/// than iterations permitted, thinning always converges.
#[verifier::external_body]
fn thin_mask(mask: &Vec<bool>, width: usize, height: usize) -> (r: Vec<bool>)
    requires
        mask@.len() == width * height,
        1 <= width <= 0xffff_ffff,
        1 <= height <= 0xffff_ffff,
        width * height <= 0xffff_ffff,
    ensures
        r@ == skeleton_of(mask@, width as int, height as int),
        r@.len() == width * height,
{
    let bytes: Vec<u8> = mask.iter().map(|&b| if b { 255u8 } else { 0u8 }).collect();
    let img = image::GrayImage::from_raw(width as u32, height as u32, bytes).unwrap();
    let mut dynimg = image::DynamicImage::ImageLuma8(img);
    let _ = skeletonize::thin_image_edges::<skeletonize::foreground::White>(
        &mut dynimg,
        skeletonize::MarkingMethod::Modified,
        None,
    );
    dynimg.into_luma8().into_raw().iter().map(|&v| v > 0).collect()
}

/// The skeleton of the mask's foreground, as a mask of the same grid.
pub fn skeleton_mask(mask: &Mask) -> (r: Mask)
    requires
        mask.wf(),
        1 <= mask.width <= 0xffff_ffff,
        1 <= mask.height <= 0xffff_ffff,
        mask.width * mask.height <= 0xffff_ffff,
    ensures
        r.wf(),
        r.width == mask.width,
        r.height == mask.height,
        r.data@ == skeleton_of(mask.data@, mask.width as int, mask.height as int),
{
    let data = thin_mask(&mask.data, mask.width, mask.height);
    Mask { width: mask.width, height: mask.height, data }
}

/// The largest distance value over the masked pixels of the first `i`
/// cells (0 when none is masked).
pub open spec fn max_masked(d: Seq<u8>, m: Seq<bool>, i: int) -> int
    decreases i,
{
    if i <= 0 {
        0
    } else {
        let prev = max_masked(d, m, i - 1);
        if m[i - 1] && d[i - 1] as int > prev {
            d[i - 1] as int
        } else {
            prev
        }
    }
}

/// The initial mask of the mean-field smoother: each masked pixel's
/// confidence is `1 - d/maxd`, with `d` its saturated L1 distance to the
/// skeleton of the mask's edge-thinned foreground and `maxd` the largest
/// masked distance; thresholding that field at one half keeps exactly
/// the masked pixels with `2*d < maxd`. This is also what the smoother
/// returns when it runs zero iterations.
pub fn crf_initial_mask(mask: &Mask) -> (r: Mask)
    requires
        mask.wf(),
        1 <= mask.width <= 0xffff_ffff,
        1 <= mask.height <= 0xffff_ffff,
        mask.width * mask.height <= 0xffff_ffff,
    ensures
        r.wf(),
        r.width == mask.width,
        r.height == mask.height,
        exists|sk: Mask, d: Seq<u8>|
            {
                &&& sk.wf()
                &&& sk.width == mask.width
                &&& sk.height == mask.height
                &&& sk.data@ == skeleton_of(mask.data@, mask.width as int, mask.height as int)
                &&& #[trigger] dist_ok(sk, d)
                &&& (forall|j: int| 0 <= j < mask.width * mask.height
                    ==> r.data@[j] == (mask.data@[j]
                        && 2 * (d[j] as int) < max_masked(d, mask.data@,
                            mask.width * mask.height)))
            },
{
    let sk = skeleton_mask(mask);
    let d = distance_transform_l1(&sk);
    let ghost gsk = sk;
    let ghost gd = d@;
    let n = mask.data.len();
    let mut maxd: u8 = 0;
    let mut i: usize = 0;
    while i < n
        invariant
            mask.wf(),
            n == mask.data@.len(),
            gd == d@,
            d@.len() == n,
            i <= n,
            maxd as int == max_masked(d@, mask.data@, i as int),
        decreases n - i,
    {
        if mask.data[i] && d[i] > maxd {
            maxd = d[i];
        }
        i = i + 1;
    }
    let mut out: Vec<bool> = Vec::new();
    let mut i: usize = 0;
    while i < n
        invariant
            mask.wf(),
            n == mask.data@.len(),
            gd == d@,
            d@.len() == n,
            maxd as int == max_masked(d@, mask.data@, n as int),
            i <= n,
            out@.len() == i,
            forall|j: int| 0 <= j < i ==> out@[j] == (mask.data@[j]
                && 2 * (d@[j] as int) < max_masked(d@, mask.data@, n as int)),
        decreases n - i,
    {
        let keep = mask.data[i] && 2 * (d[i] as u64) < (maxd as u64);
        out.push(keep);
        i = i + 1;
    }
    let r = Mask { width: mask.width, height: mask.height, data: out };
    proof {
        assert(r.wf());
        assert(dist_ok(gsk, gd));
    }
    r
}

} // verus!
