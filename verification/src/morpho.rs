use vstd::prelude::*;

use crate::components::{
    canonical, connected_components, label_at, labels_wf, lemma_max_label_contains, max_label,
};
use crate::connectivity::{fg, is_path, lemma_reach_fg, reach};
use crate::grid::{lemma_grid_index, Mask};

verus! {

/// The L1 (city-block) distance between two cells.
pub open spec fn l1(x1: int, y1: int, x2: int, y2: int) -> int {
    (if x1 >= x2 {
        x1 - x2
    } else {
        x2 - x1
    }) + (if y1 >= y2 {
        y1 - y2
    } else {
        y2 - y1
    })
}

/// Binary dilation: a cell is set when some foreground cell lies within
/// L1 distance `k` (the border clips the structuring element).
pub open spec fn dil_at(m: Mask, k: u8, x: int, y: int) -> bool {
    exists|a: int, b: int| m.in_bounds(a, b) && #[trigger] m.at(a, b) && l1(x, y, a, b) <= k
}

/// Binary erosion: a cell stays set when every cell within L1 distance
/// `k` of it is foreground (cells outside the grid do not count).
pub open spec fn ero_at(m: Mask, k: u8, x: int, y: int) -> bool {
    forall|a: int, b: int| m.in_bounds(a, b) && l1(x, y, a, b) <= k ==> #[trigger] m.at(a, b)
}

/// `dst` is `src` eroded by `k`.
pub open spec fn eroded_of(src: Mask, k: u8, dst: Mask) -> bool {
    &&& dst.wf()
    &&& dst.width == src.width
    &&& dst.height == src.height
    &&& (forall|x: int, y: int| dst.in_bounds(x, y)
        ==> (#[trigger] dst.at(x, y) <==> ero_at(src, k, x, y)))
}

/// `dst` is `src` dilated by `k`.
pub open spec fn dilated_of(src: Mask, k: u8, dst: Mask) -> bool {
    &&& dst.wf()
    &&& dst.width == src.width
    &&& dst.height == src.height
    &&& (forall|x: int, y: int| dst.in_bounds(x, y)
        ==> (#[trigger] dst.at(x, y) <==> dil_at(src, k, x, y)))
}

/// `m1` is `m` after binary opening (erode, dilate) followed by binary
/// closing (dilate, erode), all with L1 radius `k`.
pub open spec fn morphed_rel(m: Mask, k: u8, m1: Mask) -> bool {
    exists|e1: Mask, d1: Mask, d2: Mask|
        #![trigger eroded_of(m, k, e1), dilated_of(e1, k, d1), dilated_of(d1, k, d2)]
        {
            &&& eroded_of(m, k, e1)
            &&& dilated_of(e1, k, d1)
            &&& dilated_of(d1, k, d2)
            &&& eroded_of(d2, k, m1)
        }
}

/// Whether a cell of `src` survives erosion by `k`.
fn erode_px(src: &Mask, k: u8, x: usize, y: usize) -> (r: bool)
    requires
        src.wf(),
        src.in_bounds(x as int, y as int),
    ensures
        r == ero_at(*src, k, x as int, y as int),
{
    let width = src.width;
    let height = src.height;
    let mut b: usize = 0;
    while b < height
        invariant
            src.wf(),
            width == src.width,
            height == src.height,
            x < width,
            y < height,
            b <= height,
            forall|aa: int, bb: int| src.in_bounds(aa, bb) && bb < b
                && l1(x as int, y as int, aa, bb) <= k ==> #[trigger] src.at(aa, bb),
        decreases height - b,
    {
        let mut a: usize = 0;
        while a < width
            invariant
                src.wf(),
                width == src.width,
                height == src.height,
                x < width,
                y < height,
                b < height,
                a <= width,
                forall|aa: int, bb: int| src.in_bounds(aa, bb) && bb < b
                    && l1(x as int, y as int, aa, bb) <= k ==> #[trigger] src.at(aa, bb),
                forall|aa: int| 0 <= aa < a && l1(x as int, y as int, aa, b as int) <= k
                    ==> #[trigger] src.at(aa, b as int),
            decreases width - a,
        {
            let dx = if a >= x { a - x } else { x - a };
            let dy = if b >= y { b - y } else { y - b };
            if dx <= k as usize && dy <= k as usize && dx + dy <= k as usize {
                if !src.get(a, b) {
                    return false;
                }
            }
            proof {
                if l1(x as int, y as int, a as int, b as int) <= k {
                    assert(src.at(a as int, b as int));
                }
            }
            a = a + 1;
        }
        b = b + 1;
    }
    true
}

/// Whether a cell of `src` is set by dilation by `k`.
fn dilate_px(src: &Mask, k: u8, x: usize, y: usize) -> (r: bool)
    requires
        src.wf(),
        src.in_bounds(x as int, y as int),
    ensures
        r == dil_at(*src, k, x as int, y as int),
{
    let width = src.width;
    let height = src.height;
    let mut b: usize = 0;
    while b < height
        invariant
            src.wf(),
            width == src.width,
            height == src.height,
            x < width,
            y < height,
            b <= height,
            forall|aa: int, bb: int| src.in_bounds(aa, bb) && bb < b
                && l1(x as int, y as int, aa, bb) <= k ==> !(#[trigger] src.at(aa, bb)),
        decreases height - b,
    {
        let mut a: usize = 0;
        while a < width
            invariant
                src.wf(),
                width == src.width,
                height == src.height,
                x < width,
                y < height,
                b < height,
                a <= width,
                forall|aa: int, bb: int| src.in_bounds(aa, bb) && bb < b
                    && l1(x as int, y as int, aa, bb) <= k ==> !(#[trigger] src.at(aa, bb)),
                forall|aa: int| 0 <= aa < a && l1(x as int, y as int, aa, b as int) <= k
                    ==> !(#[trigger] src.at(aa, b as int)),
            decreases width - a,
        {
            let dx = if a >= x { a - x } else { x - a };
            let dy = if b >= y { b - y } else { y - b };
            if dx <= k as usize && dy <= k as usize && dx + dy <= k as usize {
                if src.get(a, b) {
                    return true;
                }
            }
            proof {
                if l1(x as int, y as int, a as int, b as int) <= k {
                    assert(!src.at(a as int, b as int));
                }
            }
            a = a + 1;
        }
        b = b + 1;
    }
    false
}

/// Erodes a mask by L1 radius `k`.
pub fn erode(src: &Mask, k: u8) -> (r: Mask)
    requires
        src.wf(),
    ensures
        eroded_of(*src, k, r),
{
    let width = src.width;
    let height = src.height;
    let mut data: Vec<bool> = Vec::new();
    let mut y: usize = 0;
    while y < height
        invariant
            src.wf(),
            width == src.width,
            height == src.height,
            y <= height,
            data@.len() == y * width,
            forall|x2: int, y2: int| 0 <= x2 < width && 0 <= y2 < y
                ==> data@[y2 * width + x2] == ero_at(*src, k, x2, y2),
        decreases height - y,
    {
        let mut x: usize = 0;
        while x < width
            invariant
                src.wf(),
                width == src.width,
                height == src.height,
                y < height,
                x <= width,
                data@.len() == y * width + x,
                forall|x2: int, y2: int| 0 <= x2 < width && 0 <= y2 < y
                    ==> data@[y2 * width + x2] == ero_at(*src, k, x2, y2),
                forall|x2: int| 0 <= x2 < x
                    ==> data@[y * width + x2] == ero_at(*src, k, x2, y as int),
            decreases width - x,
        {
            proof {
                lemma_grid_index(width as int, height as int, x as int, y as int);
            }
            data.push(erode_px(src, k, x, y));
            proof {
                assert forall|x2: int, y2: int| 0 <= x2 < width && 0 <= y2 < y
                    implies data@[y2 * width + x2] == ero_at(*src, k, x2, y2) by {
                    assert(y2 * width + x2 < y * width) by (nonlinear_arith)
                        requires 0 <= x2 < (width as int) && 0 <= y2 && y2 < (y as int);
                }
            }
            x = x + 1;
        }
        proof {
            assert((y + 1) * width == y * width + width) by (nonlinear_arith);
        }
        y = y + 1;
    }
    let r = Mask { width, height, data };
    proof {
        assert((height as int) * (width as int) == width * height) by (nonlinear_arith);
        assert forall|x2: int, y2: int| r.in_bounds(x2, y2)
            implies (#[trigger] r.at(x2, y2) <==> ero_at(*src, k, x2, y2)) by {
            assert(r.data@[y2 * width + x2] == ero_at(*src, k, x2, y2));
        }
    }
    r
}

/// Dilates a mask by L1 radius `k`.
pub fn dilate(src: &Mask, k: u8) -> (r: Mask)
    requires
        src.wf(),
    ensures
        dilated_of(*src, k, r),
{
    let width = src.width;
    let height = src.height;
    let mut data: Vec<bool> = Vec::new();
    let mut y: usize = 0;
    while y < height
        invariant
            src.wf(),
            width == src.width,
            height == src.height,
            y <= height,
            data@.len() == y * width,
            forall|x2: int, y2: int| 0 <= x2 < width && 0 <= y2 < y
                ==> data@[y2 * width + x2] == dil_at(*src, k, x2, y2),
        decreases height - y,
    {
        let mut x: usize = 0;
        while x < width
            invariant
                src.wf(),
                width == src.width,
                height == src.height,
                y < height,
                x <= width,
                data@.len() == y * width + x,
                forall|x2: int, y2: int| 0 <= x2 < width && 0 <= y2 < y
                    ==> data@[y2 * width + x2] == dil_at(*src, k, x2, y2),
                forall|x2: int| 0 <= x2 < x
                    ==> data@[y * width + x2] == dil_at(*src, k, x2, y as int),
            decreases width - x,
        {
            proof {
                lemma_grid_index(width as int, height as int, x as int, y as int);
            }
            data.push(dilate_px(src, k, x, y));
            proof {
                assert forall|x2: int, y2: int| 0 <= x2 < width && 0 <= y2 < y
                    implies data@[y2 * width + x2] == dil_at(*src, k, x2, y2) by {
                    assert(y2 * width + x2 < y * width) by (nonlinear_arith)
                        requires 0 <= x2 < (width as int) && 0 <= y2 && y2 < (y as int);
                }
            }
            x = x + 1;
        }
        proof {
            assert((y + 1) * width == y * width + width) by (nonlinear_arith);
        }
        y = y + 1;
    }
    let r = Mask { width, height, data };
    proof {
        assert((height as int) * (width as int) == width * height) by (nonlinear_arith);
        assert forall|x2: int, y2: int| r.in_bounds(x2, y2)
            implies (#[trigger] r.at(x2, y2) <==> dil_at(*src, k, x2, y2)) by {
            assert(r.data@[y2 * width + x2] == dil_at(*src, k, x2, y2));
        }
    }
    r
}

/// How many cells carry label `l`.
pub open spec fn count_label(s: Seq<u32>, l: u32) -> int
    decreases s,
{
    if s.len() == 0 {
        0
    } else {
        count_label(s.drop_last(), l) + if s.last() == l {
            1int
        } else {
            0int
        }
    }
}

pub proof fn lemma_count_label_bound(s: Seq<u32>, l: u32)
    ensures
        0 <= count_label(s, l) <= s.len(),
    decreases s,
{
    if s.len() > 0 {
        lemma_count_label_bound(s.drop_last(), l);
    }
}

/// `best` is the most frequent nonzero label, ties resolved to the
/// lowest label id (that is, to the component first met in raster
/// order under a canonical labeling).
pub open spec fn is_best_label(s: Seq<u32>, cnt: u32, best: u32) -> bool {
    &&& 1 <= best <= cnt
    &&& (forall|l: u32| 1 <= l <= cnt ==> #[trigger] count_label(s, l) <= count_label(s, best))
    &&& (forall|l: u32| 1 <= l < best ==> #[trigger] count_label(s, l) < count_label(s, best))
}

/// The most frequent label (lowest id on ties).
pub open spec fn the_best(s: Seq<u32>, cnt: u32) -> u32 {
    choose|b: u32| is_best_label(s, cnt, b)
}

pub proof fn lemma_best_unique(s: Seq<u32>, cnt: u32, b1: u32, b2: u32)
    requires
        is_best_label(s, cnt, b1),
        is_best_label(s, cnt, b2),
    ensures
        b1 == b2,
{
    if b1 < b2 {
        assert(count_label(s, b1) < count_label(s, b2));
        assert(count_label(s, b2) <= count_label(s, b1));
    }
    if b2 < b1 {
        assert(count_label(s, b2) < count_label(s, b1));
        assert(count_label(s, b1) <= count_label(s, b2));
    }
}

/// The first stage of the refiner: morphological opening and closing
/// when requested, otherwise the mask unchanged.
pub open spec fn stage1_of(m: Mask, opening: bool, k: u8, m1: Mask) -> bool {
    &&& m1.wf()
    &&& m1.width == m.width
    &&& m1.height == m.height
    &&& if opening {
        morphed_rel(m, k, m1)
    } else {
        m1.data@ == m.data@
    }
}

/// The second stage: when connectedness is enforced and the mask has
/// foreground, only the largest 8-connected component survives (ties to
/// the component first met in raster order); otherwise the mask passes
/// through.
pub open spec fn selected_of(m1: Mask, enforce: bool, out: Mask) -> bool {
    &&& out.wf()
    &&& out.width == m1.width
    &&& out.height == m1.height
    &&& if !enforce {
        out.data@ == m1.data@
    } else {
        exists|labels: Seq<u32>|
            {
                &&& #[trigger] labels_wf(m1, labels)
                &&& canonical(labels)
                &&& if max_label(labels) == 0 {
                    out.data@ == m1.data@
                } else {
                    forall|x: int, y: int| out.in_bounds(x, y)
                        ==> (#[trigger] out.at(x, y) <==> label_at(m1, labels, x, y)
                            == the_best(labels, max_label(labels) as u32))
                }
            }
    }
}

/// A mask restricted to the cells of one connected component stays
/// internally connected.
pub proof fn lemma_reach_in_subset(m: Mask, out: Mask, x1: int, y1: int, x2: int, y2: int)
    requires
        m.width == out.width,
        m.height == out.height,
        reach(m, x1, y1, x2, y2),
        forall|a: int, b: int| fg(m, a, b) && reach(m, x1, y1, a, b) ==> #[trigger] out.at(a, b),
    ensures
        reach(out, x1, y1, x2, y2),
{
    let p = choose|p: Seq<(int, int)>|
        is_path(m, p) && p[0] == (x1, y1) && p.last() == (x2, y2);
    assert forall|i: int| 0 <= i < p.len() implies fg(out, (#[trigger] p[i]).0, p[i].1) by {
        let q = p.take(i + 1);
        assert(is_path(m, q)) by {
            assert(forall|j: int| 0 <= j < q.len() ==> q[j] == p[j]);
        }
        assert(q[0] == p[0] && q.last() == p[i]);
        assert(reach(m, x1, y1, p[i].0, p[i].1));
        assert(fg(m, p[i].0, p[i].1));
        assert(out.at(p[i].0, p[i].1));
    }
    assert(is_path(out, p));
    assert(reach(out, x1, y1, x2, y2));
}

/// The morphological refiner: optional binary opening followed by
/// closing (L1 structuring radius `kernel_size`), and, when
/// `enforce_connectedness` is set, restriction to the largest
/// 8-connected component, ties going to the component first met in
/// raster order. The result of enforcing connectedness is always
/// 8-connected: any two of its foreground pixels are mutually reachable.
pub fn morpho_mask(mask: &Mask, opening: bool, enforce_connectedness: bool, kernel_size: u8) -> (r:
    Mask)
    requires
        mask.wf(),
        mask.width * mask.height < 0xffff_ffff,
    ensures
        r.wf(),
        r.width == mask.width,
        r.height == mask.height,
        exists|m1: Mask| #[trigger] stage1_of(*mask, opening, kernel_size, m1)
            && selected_of(m1, enforce_connectedness, r),
        enforce_connectedness ==> (forall|x1: int, y1: int, x2: int, y2: int|
            #![trigger r.at(x1, y1), r.at(x2, y2)]
            r.in_bounds(x1, y1) && r.in_bounds(x2, y2) && r.at(x1, y1) && r.at(x2, y2)
                ==> reach(r, x1, y1, x2, y2)),
{
    let width = mask.width;
    let height = mask.height;
    let m1: Mask = if opening {
        let e1 = erode(mask, kernel_size);
        let d1 = dilate(&e1, kernel_size);
        let d2 = dilate(&d1, kernel_size);
        let m1 = erode(&d2, kernel_size);
        proof {
            assert(eroded_of(*mask, kernel_size, e1) && dilated_of(e1, kernel_size, d1)
                && dilated_of(d1, kernel_size, d2) && eroded_of(d2, kernel_size, m1));
            assert(morphed_rel(*mask, kernel_size, m1));
        }
        m1
    } else {
        let n = mask.data.len();
        let mut data: Vec<bool> = Vec::new();
        let mut i: usize = 0;
        while i < n
            invariant
                mask.wf(),
                n == mask.data@.len(),
                i <= n,
                data@.len() == i,
                forall|j: int| 0 <= j < i ==> data@[j] == mask.data@[j],
            decreases n - i,
        {
            data.push(mask.data[i]);
            i = i + 1;
        }
        let m1 = Mask { width, height, data };
        proof {
            assert(m1.data@ =~= mask.data@);
        }
        m1
    };
    let ghost gm1 = m1;
    proof {
        assert(stage1_of(*mask, opening, kernel_size, m1));
    }
    if !enforce_connectedness {
        proof {
            assert(selected_of(gm1, false, m1));
        }
        return m1;
    }
    let cc = connected_components(&m1);
    let labels = cc.0;
    let count = cc.1;
    if count == 0 {
        proof {
            assert(selected_of(gm1, true, m1));
            assert forall|x1: int, y1: int| m1.in_bounds(x1, y1) && #[trigger] m1.at(x1, y1)
                implies false by {
                assert(label_at(m1, labels@, x1, y1) != 0);
                lemma_grid_index(m1.width as int, m1.height as int, x1, y1);
                lemma_max_label_contains(labels@, y1 * m1.width + x1);
            }
        }
        return m1;
    }
    let n = m1.data.len();
    let mut counts: Vec<u64> = Vec::new();
    let counts_len = count as usize + 1;
    let mut v: usize = 0;
    while v < counts_len
        invariant
            v <= counts_len,
            counts@.len() == v,
            forall|j: int| 0 <= j < v ==> counts@[j] == 0,
        decreases counts_len - v,
    {
        counts.push(0);
        v = v + 1;
    }
    proof {
        assert forall|l: int| 0 <= l <= count as int
            implies counts@[l] as int == count_label(labels@.take(0), l as u32) by {
            assert(labels@.take(0) =~= Seq::<u32>::empty());
        }
    }
    let mut i: usize = 0;
    while i < n
        invariant
            gm1 == m1,
            m1.wf(),
            labels@.len() == n,
            n == m1.width * m1.height,
            n <= 0xffff_ffff,
            count as int == max_label(labels@),
            count as int <= n,
            counts@.len() == count as int + 1,
            i <= n,
            forall|l: int| 0 <= l <= count as int
                ==> (#[trigger] counts@[l]) as int == count_label(labels@.take(i as int), l as u32),
        decreases n - i,
    {
        let l = labels[i];
        proof {
            lemma_max_label_contains(labels@, i as int);
            lemma_count_label_bound(labels@.take(i as int), l);
            assert(labels@.take(i + 1).drop_last() =~= labels@.take(i as int));
            assert(labels@.take(i + 1).last() == labels@[i as int]);
            assert forall|l2: int| 0 <= l2 <= count as int
                implies #[trigger] count_label(labels@.take(i + 1), l2 as u32)
                    == count_label(labels@.take(i as int), l2 as u32)
                    + (if labels@[i as int] == l2 as u32 { 1int } else { 0int }) by {}
        }
        let c = counts[l as usize];
        counts.set(l as usize, c + 1);
        i = i + 1;
    }
    proof {
        assert(labels@.take(n as int) =~= labels@);
    }
    // Pick the most frequent label, lowest id on ties.
    let mut best: u32 = 1;
    let mut best_cnt: u64 = counts[1];
    let mut l: u32 = 2;
    while l <= count
        invariant
            counts@.len() == count as int + 1,
            count >= 1,
            count < 0xffff_ffff,
            forall|l2: int| 0 <= l2 <= count as int
                ==> (#[trigger] counts@[l2]) as int == count_label(labels@, l2 as u32),
            2 <= l <= count + 1,
            1 <= best < l,
            best_cnt == counts@[best as int],
            forall|l2: u32| 1 <= l2 < l ==> #[trigger] count_label(labels@, l2)
                <= best_cnt as int,
            forall|l2: u32| 1 <= l2 < best ==> #[trigger] count_label(labels@, l2)
                < best_cnt as int,
        decreases count + 1 - l,
    {
        let c = counts[l as usize];
        if c > best_cnt {
            best = l;
            best_cnt = c;
        }
        l = l + 1;
    }
    proof {
        assert(is_best_label(labels@, count, best));
        assert(is_best_label(labels@, count, the_best(labels@, count))) by {
            assert(exists|b: u32| is_best_label(labels@, count, b));
        }
        lemma_best_unique(labels@, count, best, the_best(labels@, count));
    }
    // Keep only the pixels of the chosen component.
    let mut data: Vec<bool> = Vec::new();
    let mut i: usize = 0;
    while i < n
        invariant
            labels@.len() == n,
            i <= n,
            data@.len() == i,
            forall|j: int| 0 <= j < i ==> data@[j] == (labels@[j] == best),
        decreases n - i,
    {
        data.push(labels[i] == best);
        i = i + 1;
    }
    let out = Mask { width, height, data };
    proof {
        assert(out.wf());
        assert forall|x: int, y: int| out.in_bounds(x, y)
            implies (#[trigger] out.at(x, y) <==> label_at(m1, labels@, x, y)
                == the_best(labels@, max_label(labels@) as u32)) by {
            lemma_grid_index(width as int, height as int, x, y);
            assert(out.at(x, y) == out.data@[y * width + x]);
        }
        assert(selected_of(gm1, true, out));
        // The kept pixels form one 8-connected component.
        assert forall|x1: int, y1: int, x2: int, y2: int|
            #![trigger out.at(x1, y1), out.at(x2, y2)]
            out.in_bounds(x1, y1) && out.in_bounds(x2, y2) && out.at(x1, y1) && out.at(x2, y2)
            implies reach(out, x1, y1, x2, y2) by {
            assert(label_at(m1, labels@, x1, y1) == best && label_at(m1, labels@, x2, y2)
                == best);
            assert(fg(m1, x1, y1)) by {
                if !m1.at(x1, y1) {
                    assert(label_at(m1, labels@, x1, y1) == 0);
                }
            }
            assert(fg(m1, x2, y2)) by {
                if !m1.at(x2, y2) {
                    assert(label_at(m1, labels@, x2, y2) == 0);
                }
            }
            assert(reach(m1, x1, y1, x2, y2));
            assert forall|a: int, b: int| fg(m1, a, b) && reach(m1, x1, y1, a, b)
                implies #[trigger] out.at(a, b) by {
                assert(label_at(m1, labels@, a, b) == label_at(m1, labels@, x1, y1));
                lemma_grid_index(width as int, height as int, a, b);
            }
            lemma_reach_in_subset(m1, out, x1, y1, x2, y2);
        }
    }
    out
}

} // verus!
