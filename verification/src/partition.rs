use vstd::prelude::*;

use crate::grid::Mask;
use crate::quadtree::{
    box_area, box_contains, box_in, box_wf, boxes_in, boxes_wf, collect_leaves, collect_spec,
    lemma_collect_wf, lemma_merge_boxes_in, lemma_split_boxes_in, merge_quadnode, spec_merge,
    spec_split, split_region, view_node, BBox,
};

verus! {

/// The mask holds at least one foreground pixel.
pub open spec fn has_fg(m: Mask) -> bool {
    exists|x: int, y: int| m.in_bounds(x, y) && m.at(x, y)
}

/// `(x, y)` is a foreground pixel of `m` lying inside `b`.
pub open spec fn fg_in_box(m: Mask, b: BBox, x: int, y: int) -> bool {
    box_contains(b, x, y) && m.in_bounds(x, y) && m.at(x, y)
}

/// Foreground pixels among the first `cols` pixels of row `y` of `b`.
pub open spec fn count_row(m: Mask, b: BBox, y: int, cols: int) -> int
    decreases cols,
{
    if cols <= 0 {
        0
    } else {
        count_row(m, b, y, cols - 1) + if m.at(b.xmin + cols - 1, y) {
            1int
        } else {
            0int
        }
    }
}

/// Foreground pixels of `m` inside `b`, among the first `rows` rows of `b`.
pub open spec fn count_rows(m: Mask, b: BBox, rows: int) -> int
    decreases rows,
{
    if rows <= 0 {
        0
    } else {
        count_rows(m, b, rows - 1) + count_row(m, b, b.ymin + rows - 1, b.xmax - b.xmin)
    }
}

/// The number of foreground pixels of `m` inside `b`.
pub open spec fn count_fg_in(m: Mask, b: BBox) -> int {
    count_rows(m, b, b.ymax - b.ymin)
}

pub proof fn lemma_count_row_bound(m: Mask, b: BBox, y: int, cols: int)
    requires
        cols >= 0,
    ensures
        0 <= count_row(m, b, y, cols) <= cols,
    decreases cols,
{
    if cols > 0 {
        lemma_count_row_bound(m, b, y, cols - 1);
    }
}

pub proof fn lemma_count_rows_bound(m: Mask, b: BBox, rows: int)
    requires
        rows >= 0,
        b.xmin <= b.xmax,
    ensures
        0 <= count_rows(m, b, rows) <= rows * (b.xmax - b.xmin),
    decreases rows,
{
    if rows > 0 {
        lemma_count_rows_bound(m, b, rows - 1);
        lemma_count_row_bound(m, b, b.ymin + rows - 1, b.xmax - b.xmin);
        assert(rows * (b.xmax - b.xmin) == (rows - 1) * (b.xmax - b.xmin) + (b.xmax - b.xmin))
            by (nonlinear_arith);
    }
}

/// `tb` is the tight bounding rectangle of the foreground of `m` inside
/// `b`: it lies in `b`, contains every foreground pixel of `b`, and
/// touches foreground on each of its four edges.
pub open spec fn is_tight_in(m: Mask, b: BBox, tb: BBox) -> bool {
    &&& b.xmin <= tb.xmin && tb.xmax <= b.xmax
    &&& b.ymin <= tb.ymin && tb.ymax <= b.ymax
    &&& tb.xmin < tb.xmax && tb.ymin < tb.ymax
    &&& (forall|x: int, y: int| fg_in_box(m, b, x, y) ==> box_contains(tb, x, y))
    &&& (exists|x: int, y: int| fg_in_box(m, b, x, y) && x == tb.xmin as int)
    &&& (exists|x: int, y: int| fg_in_box(m, b, x, y) && x + 1 == tb.xmax as int)
    &&& (exists|x: int, y: int| fg_in_box(m, b, x, y) && y == tb.ymin as int)
    &&& (exists|x: int, y: int| fg_in_box(m, b, x, y) && y + 1 == tb.ymax as int)
}

/// The tight bounding rectangle of the foreground of `m` inside `b`;
/// meaningful whenever some foreground pixel lies in `b`.
pub open spec fn tight_of(m: Mask, b: BBox) -> BBox {
    choose|tb: BBox| is_tight_in(m, b, tb)
}

/// At most one rectangle is tight.
pub proof fn lemma_tight_unique(m: Mask, b: BBox, t1: BBox, t2: BBox)
    requires
        is_tight_in(m, b, t1),
        is_tight_in(m, b, t2),
    ensures
        t1 == t2,
{
    assert(t2.xmin <= t1.xmin && t1.xmin <= t2.xmin) by {
        let (x1, y1) = choose|x: int, y: int| fg_in_box(m, b, x, y) && x == t1.xmin as int;
        assert(box_contains(t2, x1, y1));
        let (x2, y2) = choose|x: int, y: int| fg_in_box(m, b, x, y) && x == t2.xmin as int;
        assert(box_contains(t1, x2, y2));
    }
    assert(t2.xmax <= t1.xmax && t1.xmax <= t2.xmax) by {
        let (x1, y1) = choose|x: int, y: int| fg_in_box(m, b, x, y) && x + 1 == t1.xmax as int;
        assert(box_contains(t2, x1, y1));
        let (x2, y2) = choose|x: int, y: int| fg_in_box(m, b, x, y) && x + 1 == t2.xmax as int;
        assert(box_contains(t1, x2, y2));
    }
    assert(t2.ymin <= t1.ymin && t1.ymin <= t2.ymin) by {
        let (x1, y1) = choose|x: int, y: int| fg_in_box(m, b, x, y) && y == t1.ymin as int;
        assert(box_contains(t2, x1, y1));
        let (x2, y2) = choose|x: int, y: int| fg_in_box(m, b, x, y) && y == t2.ymin as int;
        assert(box_contains(t1, x2, y2));
    }
    assert(t2.ymax <= t1.ymax && t1.ymax <= t2.ymax) by {
        let (x1, y1) = choose|x: int, y: int| fg_in_box(m, b, x, y) && y + 1 == t1.ymax as int;
        assert(box_contains(t2, x1, y1));
        let (x2, y2) = choose|x: int, y: int| fg_in_box(m, b, x, y) && y + 1 == t2.ymax as int;
        assert(box_contains(t1, x2, y2));
    }
}

/// Scans the part of the mask inside `b`; returns the tight bounding
/// rectangle of its foreground and the number of foreground pixels, or
/// `None` when no foreground pixel lies in `b`.
pub fn tight_box_in(mask: &Mask, b: BBox) -> (r: Option<(BBox, u64)>)
    requires
        mask.wf(),
        box_wf(b),
        b.xmax as int <= mask.width as int,
        b.ymax as int <= mask.height as int,
    ensures
        match r {
            None => count_fg_in(*mask, b) == 0 && !(exists|x: int, y: int|
                fg_in_box(*mask, b, x, y)),
            Some(p) => {
                &&& is_tight_in(*mask, b, p.0)
                &&& p.0 == tight_of(*mask, b)
                &&& p.1 as int == count_fg_in(*mask, b)
                &&& p.1 > 0
            },
        },
{
    let ghost m = *mask;
    let mut found: bool = false;
    let mut xmin: u32 = 0;
    let mut ymin: u32 = 0;
    let mut xmax: u32 = 0;
    let mut ymax: u32 = 0;
    let mut count: u64 = 0;
    let mut y = b.ymin;
    while y < b.ymax
        invariant
            mask.wf(),
            m == *mask,
            box_wf(b),
            b.xmax as int <= mask.width as int,
            b.ymax as int <= mask.height as int,
            b.ymin <= y <= b.ymax,
            count as int == count_rows(m, b, y - b.ymin),
            !found ==> count == 0,
            found ==> count > 0,
            !found ==> !(exists|xx: int, yy: int| fg_in_box(m, b, xx, yy) && yy < y),
            found ==> b.xmin <= xmin && xmin <= xmax && xmax < b.xmax,
            found ==> b.ymin <= ymin && ymin <= ymax && ymax < y,
            found ==> (forall|xx: int, yy: int| fg_in_box(m, b, xx, yy) && yy < y
                ==> xmin <= xx && xx <= xmax && ymin <= yy && yy <= ymax),
            found ==> (exists|xx: int, yy: int| fg_in_box(m, b, xx, yy) && yy < y
                && xx == xmin as int),
            found ==> (exists|xx: int, yy: int| fg_in_box(m, b, xx, yy) && yy < y
                && xx == xmax as int),
            found ==> (exists|xx: int, yy: int| fg_in_box(m, b, xx, yy) && yy < y
                && yy == ymin as int),
            found ==> (exists|xx: int, yy: int| fg_in_box(m, b, xx, yy) && yy < y
                && yy == ymax as int),
        decreases b.ymax as int - y as int,
    {
        let mut x = b.xmin;
        while x < b.xmax
            invariant
                mask.wf(),
                m == *mask,
                box_wf(b),
                b.xmax as int <= mask.width as int,
                b.ymax as int <= mask.height as int,
                b.ymin <= y < b.ymax,
                b.xmin <= x <= b.xmax,
                count as int == count_rows(m, b, y - b.ymin) + count_row(m, b, y as int, x - b.xmin),
                !found ==> count == 0,
                found ==> count > 0,
                !found ==> !(exists|xx: int, yy: int| fg_in_box(m, b, xx, yy)
                    && (yy < y || (yy == y && xx < x))),
                found ==> b.xmin <= xmin && xmin <= xmax && xmax < b.xmax,
                found ==> b.ymin <= ymin && ymin <= ymax && ymax <= y,
                found ==> (forall|xx: int, yy: int| fg_in_box(m, b, xx, yy)
                    && (yy < y || (yy == y && xx < x))
                    ==> xmin <= xx && xx <= xmax && ymin <= yy && yy <= ymax),
                found ==> (exists|xx: int, yy: int| fg_in_box(m, b, xx, yy)
                    && (yy < y || (yy == y && xx < x)) && xx == xmin as int),
                found ==> (exists|xx: int, yy: int| fg_in_box(m, b, xx, yy)
                    && (yy < y || (yy == y && xx < x)) && xx == xmax as int),
                found ==> (exists|xx: int, yy: int| fg_in_box(m, b, xx, yy)
                    && (yy < y || (yy == y && xx < x)) && yy == ymin as int),
                found ==> (exists|xx: int, yy: int| fg_in_box(m, b, xx, yy)
                    && (yy < y || (yy == y && xx < x)) && yy == ymax as int),
            decreases b.xmax as int - x as int,
        {
            if mask.get(x as usize, y as usize) {
                proof {
                    assert(fg_in_box(m, b, x as int, y as int));
                    lemma_count_rows_bound(m, b, y - b.ymin);
                    lemma_count_row_bound(m, b, y as int, x - b.xmin);
                    assert((y - b.ymin) * (b.xmax - b.xmin)
                        <= 0xffff_ffff * 0xffff_ffff) by (nonlinear_arith)
                        requires 0 <= y - b.ymin <= 0xffff_ffff
                            && 0 <= b.xmax - b.xmin <= 0xffff_ffff;
                }
                count = count + 1;
                if !found {
                    found = true;
                    xmin = x;
                    xmax = x;
                    ymin = y;
                    ymax = y;
                } else {
                    if x < xmin {
                        xmin = x;
                    }
                    if x > xmax {
                        xmax = x;
                    }
                    ymax = y;
                }
            }
            x = x + 1;
        }
        proof {
            assert(count_rows(m, b, (y + 1) - b.ymin)
                == count_rows(m, b, y - b.ymin) + count_row(m, b, y as int, b.xmax - b.xmin));
        }
        y = y + 1;
    }
    if !found {
        return None;
    }
    let tb = BBox { xmin, ymin, xmax: xmax + 1, ymax: ymax + 1 };
    proof {
        assert(is_tight_in(m, b, tb));
        assert(is_tight_in(m, b, tight_of(m, b))) by {
            assert(exists|q: BBox| is_tight_in(m, b, q));
        }
        lemma_tight_unique(m, b, tb, tight_of(m, b));
        lemma_count_rows_bound(m, b, b.ymax - b.ymin);
    }
    Some((tb, count))
}


/// The whole pixel grid of a mask, as a box.
pub open spec fn full_box(m: Mask) -> BBox {
    BBox { xmin: 0, ymin: 0, xmax: m.width as u32, ymax: m.height as u32 }
}

/// One box passes the noise filter when at least half of its pixels are
/// foreground (compared exactly: twice the foreground count reaches the
/// box area).
pub open spec fn keeps_box(m: Mask, b: BBox) -> bool {
    box_area(b) > 0 && 2 * count_fg_in(m, b) >= box_area(b)
}

/// Each box that passes the noise filter, tightened to the foreground it
/// contains, in order.
pub open spec fn spec_tighten_filter(m: Mask, bs: Seq<BBox>) -> Seq<BBox>
    decreases bs,
{
    if bs.len() == 0 {
        Seq::empty()
    } else {
        spec_tighten_filter(m, bs.drop_last()) + if keeps_box(m, bs.last()) {
            seq![tight_of(m, bs.last())]
        } else {
            Seq::empty()
        }
    }
}

/// The tighten-and-filter stage; when the filter would drop every box,
/// the unfiltered list stands instead.
pub open spec fn spec_reduce(m: Mask, bs: Seq<BBox>) -> Seq<BBox> {
    let kept = spec_tighten_filter(m, bs);
    if kept.len() == 0 {
        bs
    } else {
        kept
    }
}

/// Shrinks every box to the tight bounds of the foreground it contains
/// and drops boxes whose foreground fills less than half their area;
/// if that would drop every box, the input list is returned unchanged.
pub fn reduce_bbox_to_fit_mask_content(mask: &Mask, boxes: &Vec<BBox>) -> (r: Vec<BBox>)
    requires
        mask.wf(),
        boxes_wf(boxes@),
        boxes_in(boxes@, full_box(*mask)),
        mask.width as int <= u32::MAX as int,
        mask.height as int <= u32::MAX as int,
    ensures
        r@ == spec_reduce(*mask, boxes@),
        boxes_wf(r@),
        boxes_in(r@, full_box(*mask)),
{
    let ghost m = *mask;
    let n = boxes.len();
    let mut out: Vec<BBox> = Vec::new();
    let mut i: usize = 0;
    while i < n
        invariant
            mask.wf(),
            m == *mask,
            boxes_wf(boxes@),
            boxes_in(boxes@, full_box(m)),
            mask.width as int <= u32::MAX as int,
            mask.height as int <= u32::MAX as int,
            n == boxes@.len(),
            i <= n,
            out@ == spec_tighten_filter(m, boxes@.take(i as int)),
            boxes_wf(out@),
            boxes_in(out@, full_box(m)),
        decreases n - i,
    {
        let b = boxes[i];
        proof {
            assert(box_wf(b) && box_in(b, full_box(m)));
        }
        let w = (b.xmax - b.xmin) as u64;
        let h = (b.ymax - b.ymin) as u64;
        proof {
            assert((w as int) * (h as int) <= 0xffff_ffff * 0xffff_ffff) by (nonlinear_arith)
                requires w <= 0xffff_ffff && h <= 0xffff_ffff;
        }
        let area = w * h;
        match tight_box_in(mask, b) {
            Some(p) => {
                if area > 0 && 2 * (p.1 as u128) >= (area as u128) {
                    proof {
                        assert(keeps_box(m, b));
                        assert(box_wf(p.0) && box_in(p.0, full_box(m)));
                    }
                    out.push(p.0);
                } else {
                    proof {
                        assert(!keeps_box(m, b));
                    }
                }
            }
            None => {
                proof {
                    assert(!keeps_box(m, b));
                }
            }
        }
        proof {
            assert(boxes@.take(i + 1).drop_last() =~= boxes@.take(i as int));
            assert(boxes@.take(i + 1).last() == b);
        }
        i = i + 1;
    }
    proof {
        assert(boxes@.take(n as int) =~= boxes@);
    }
    if out.len() == 0 {
        let mut cp: Vec<BBox> = Vec::new();
        let mut j: usize = 0;
        while j < n
            invariant
                n == boxes@.len(),
                j <= n,
                cp@ == boxes@.take(j as int),
            decreases n - j,
        {
            cp.push(boxes[j]);
            proof {
                assert(boxes@.take(j + 1) =~= boxes@.take(j as int).push(boxes@[j as int]));
            }
            j = j + 1;
        }
        proof {
            assert(boxes@.take(n as int) =~= boxes@);
        }
        cp
    } else {
        out
    }
}

/// What `quadtree_bounding_boxes` returns: nothing for an all-background
/// mask; otherwise the mask's tight foreground extent is split into a
/// quadtree, merged bottom-up, and the leaf boxes are tightened and
/// filtered.
pub open spec fn spec_partition(m: Mask, max_depth: u32, min_size: u32) -> Seq<BBox> {
    if !has_fg(m) {
        Seq::empty()
    } else {
        match spec_split(m, tight_of(m, full_box(m)), max_depth, min_size) {
            Option::None => Seq::empty(),
            Option::Some(t) => spec_reduce(m, collect_spec(spec_merge(t))),
        }
    }
}

/// Decomposes the foreground of a mask into bounding boxes: quadtree
/// split of the tight foreground extent, bottom-up merging of perfectly
/// tiling sibling leaves, then tightening and noise filtering.
pub fn quadtree_bounding_boxes(mask: &Mask, max_depth: u32, min_size: u32) -> (r: Vec<BBox>)
    requires
        mask.wf(),
        mask.width as int <= u32::MAX as int,
        mask.height as int <= u32::MAX as int,
    ensures
        r@ == spec_partition(*mask, max_depth, min_size),
        boxes_wf(r@),
        boxes_in(r@, full_box(*mask)),
{
    let ghost m = *mask;
    let full = BBox { xmin: 0, ymin: 0, xmax: mask.width as u32, ymax: mask.height as u32 };
    let ext = match tight_box_in(mask, full) {
        None => {
            proof {
                assert(!has_fg(m)) by {
                    if has_fg(m) {
                        let (x, y) = choose|x: int, y: int| m.in_bounds(x, y) && m.at(x, y);
                        assert(fg_in_box(m, full, x, y));
                    }
                }
            }
            return Vec::new();
        }
        Some(p) => p.0,
    };
    proof {
        assert(has_fg(m)) by {
            let (x, y) = choose|x: int, y: int| fg_in_box(m, full, x, y) && x == ext.xmin as int;
            assert(m.in_bounds(x, y) && m.at(x, y));
        }
        assert(ext == tight_of(m, full_box(m)));
    }
    let root = match split_region(mask, ext, max_depth, min_size) {
        None => {
            return Vec::new();
        }
        Some(n) => n,
    };
    proof {
        lemma_split_boxes_in(m, ext, max_depth, min_size, ext);
    }
    let merged = merge_quadnode(root);
    let mut bs: Vec<BBox> = Vec::new();
    collect_leaves(&merged, &mut bs);
    proof {
        lemma_collect_wf(view_node(merged));
        lemma_merge_boxes_in(view_node(root), ext);
        assert(bs@ == collect_spec(spec_merge(view_node(root))));
        assert forall|k: int| 0 <= k < bs@.len() implies box_in(#[trigger] bs@[k], full_box(m)) by {
            assert(box_in(bs@[k], ext));
        }
    }
    reduce_bbox_to_fit_mask_content(mask, &bs)
}

/// In a mask that fills `b` solidly, each row of `b` counts all its
/// pixels as foreground.
proof fn lemma_count_row_full(m: Mask, b: BBox, y: int, cols: int)
    requires
        0 <= cols <= b.xmax - b.xmin,
        b.ymin <= y < b.ymax,
        box_wf(b),
        forall|x2: int, y2: int| box_contains(b, x2, y2) ==> m.at(x2, y2),
    ensures
        count_row(m, b, y, cols) == cols,
    decreases cols,
{
    if cols > 0 {
        lemma_count_row_full(m, b, y, cols - 1);
        assert(box_contains(b, b.xmin + cols - 1, y));
    }
}

/// In a mask that fills `b` solidly, the foreground count of `b` equals
/// its area.
proof fn lemma_count_rows_full(m: Mask, b: BBox, rows: int)
    requires
        0 <= rows <= b.ymax - b.ymin,
        box_wf(b),
        forall|x2: int, y2: int| box_contains(b, x2, y2) ==> m.at(x2, y2),
    ensures
        count_rows(m, b, rows) == rows * (b.xmax - b.xmin),
    decreases rows,
{
    if rows > 0 {
        lemma_count_rows_full(m, b, rows - 1);
        lemma_count_row_full(m, b, b.ymin + rows - 1, b.xmax - b.xmin);
        assert(rows * (b.xmax - b.xmin) == (rows - 1) * (b.xmax - b.xmin) + (b.xmax - b.xmin))
            by (nonlinear_arith);
    } else {
        assert(0 * (b.xmax - b.xmin) == 0) by (nonlinear_arith);
    }
}

/// Law of the partitioner on solid rectangles: when the mask's
/// foreground is exactly one solid rectangle - for instance a perfect
/// 2x2 grid of solid rectangles with no gaps - the partition returns
/// exactly one box covering that rectangle, whatever the depth and size
/// limits. The quadrants of a solid rectangle are solid and tile it
/// perfectly, so the merge stage collapses the whole tree, and a solid
/// box passes the noise filter untightened.
pub proof fn lemma_partition_solid_rect(m: Mask, b: BBox, max_depth: u32, min_size: u32)
    requires
        m.wf(),
        m.width as int <= u32::MAX as int,
        m.height as int <= u32::MAX as int,
        box_wf(b),
        b.xmax as int <= m.width as int,
        b.ymax as int <= m.height as int,
        box_area(b) > 0,
        forall|x: int, y: int| m.in_bounds(x, y) ==> (m.at(x, y) <==> box_contains(b, x, y)),
    ensures
        spec_partition(m, max_depth, min_size) =~= seq![b],
{
    let w = b.xmax - b.xmin;
    let h = b.ymax - b.ymin;
    assert(w >= 1 && h >= 1) by (nonlinear_arith)
        requires
            w == b.xmax - b.xmin,
            h == b.ymax - b.ymin,
            w >= 0,
            h >= 0,
            w * h > 0,
    ;
    assert forall|x: int, y: int| box_contains(b, x, y) implies m.at(x, y) by {
        assert(m.in_bounds(x, y));
    }
    assert(has_fg(m)) by {
        assert(box_contains(b, b.xmin as int, b.ymin as int));
        assert(m.in_bounds(b.xmin as int, b.ymin as int) && m.at(b.xmin as int, b.ymin as int));
    }
    // The tight extent of the whole grid is the rectangle itself.
    let full = full_box(m);
    assert(is_tight_in(m, full, b)) by {
        assert(fg_in_box(m, full, b.xmin as int, b.ymin as int)) by {
            assert(box_contains(b, b.xmin as int, b.ymin as int));
        }
        assert(fg_in_box(m, full, b.xmax - 1, b.ymax - 1)) by {
            assert(box_contains(b, b.xmax - 1, b.ymax - 1));
        }
        assert forall|x: int, y: int| fg_in_box(m, full, x, y)
            implies box_contains(b, x, y) by {}
    }
    assert(is_tight_in(m, full, tight_of(m, full))) by {
        assert(exists|tb: BBox| is_tight_in(m, full, tb));
    }
    lemma_tight_unique(m, full, b, tight_of(m, full));
    assert(tight_of(m, full) == b);
    // Splitting and merging collapse to one leaf covering b.
    crate::quadtree::lemma_split_merge_solid(m, b, max_depth, min_size);
    let t = spec_split(m, b, max_depth, min_size)->Some_0;
    assert(collect_spec(spec_merge(t)) =~= seq![b]);
    // The solid box passes the noise filter and tightens to itself.
    assert(count_fg_in(m, b) == box_area(b)) by {
        lemma_count_rows_full(m, b, b.ymax - b.ymin);
    }
    assert(keeps_box(m, b));
    assert(is_tight_in(m, b, b)) by {
        assert(fg_in_box(m, b, b.xmin as int, b.ymin as int)) by {
            assert(box_contains(b, b.xmin as int, b.ymin as int));
        }
        assert(fg_in_box(m, b, b.xmax - 1, b.ymax - 1)) by {
            assert(box_contains(b, b.xmax - 1, b.ymax - 1));
        }
    }
    assert(is_tight_in(m, b, tight_of(m, b))) by {
        assert(exists|tb: BBox| is_tight_in(m, b, tb));
    }
    lemma_tight_unique(m, b, b, tight_of(m, b));
    assert(spec_tighten_filter(m, seq![b]) =~= seq![b]) by {
        assert(seq![b].drop_last() =~= Seq::<BBox>::empty());
        assert(seq![b].last() == b);
        assert(spec_tighten_filter(m, Seq::<BBox>::empty()) =~= Seq::<BBox>::empty());
    }
    assert(spec_reduce(m, seq![b]) =~= seq![b]);
    assert(spec_reduce(m, collect_spec(spec_merge(t))) =~= seq![b]);
}

/// From a foreground pixel inside the box, one with the least column.
proof fn lemma_least_col(m: Mask, b: BBox, x0: int, y0: int) -> (r: (int, int))
    requires
        fg_in_box(m, b, x0, y0),
    ensures
        fg_in_box(m, b, r.0, r.1),
        forall|x2: int, y2: int| fg_in_box(m, b, x2, y2) ==> x2 >= r.0,
    decreases x0 - b.xmin,
{
    if exists|x2: int, y2: int| fg_in_box(m, b, x2, y2) && x2 < x0 {
        let (x2, y2) = choose|x2: int, y2: int| fg_in_box(m, b, x2, y2) && x2 < x0;
        lemma_least_col(m, b, x2, y2)
    } else {
        (x0, y0)
    }
}

/// From a foreground pixel inside the box, one with the greatest column.
proof fn lemma_greatest_col(m: Mask, b: BBox, x0: int, y0: int) -> (r: (int, int))
    requires
        fg_in_box(m, b, x0, y0),
    ensures
        fg_in_box(m, b, r.0, r.1),
        forall|x2: int, y2: int| fg_in_box(m, b, x2, y2) ==> x2 <= r.0,
    decreases b.xmax - x0,
{
    if exists|x2: int, y2: int| fg_in_box(m, b, x2, y2) && x2 > x0 {
        let (x2, y2) = choose|x2: int, y2: int| fg_in_box(m, b, x2, y2) && x2 > x0;
        lemma_greatest_col(m, b, x2, y2)
    } else {
        (x0, y0)
    }
}

/// From a foreground pixel inside the box, one with the least row.
proof fn lemma_least_row(m: Mask, b: BBox, x0: int, y0: int) -> (r: (int, int))
    requires
        fg_in_box(m, b, x0, y0),
    ensures
        fg_in_box(m, b, r.0, r.1),
        forall|x2: int, y2: int| fg_in_box(m, b, x2, y2) ==> y2 >= r.1,
    decreases y0 - b.ymin,
{
    if exists|x2: int, y2: int| fg_in_box(m, b, x2, y2) && y2 < y0 {
        let (x2, y2) = choose|x2: int, y2: int| fg_in_box(m, b, x2, y2) && y2 < y0;
        lemma_least_row(m, b, x2, y2)
    } else {
        (x0, y0)
    }
}

/// From a foreground pixel inside the box, one with the greatest row.
proof fn lemma_greatest_row(m: Mask, b: BBox, x0: int, y0: int) -> (r: (int, int))
    requires
        fg_in_box(m, b, x0, y0),
    ensures
        fg_in_box(m, b, r.0, r.1),
        forall|x2: int, y2: int| fg_in_box(m, b, x2, y2) ==> y2 <= r.1,
    decreases b.ymax - y0,
{
    if exists|x2: int, y2: int| fg_in_box(m, b, x2, y2) && y2 > y0 {
        let (x2, y2) = choose|x2: int, y2: int| fg_in_box(m, b, x2, y2) && y2 > y0;
        lemma_greatest_row(m, b, x2, y2)
    } else {
        (x0, y0)
    }
}

/// A box holding foreground has a tight sub-box: the rectangle spanned
/// by the extremal foreground rows and columns.
pub proof fn lemma_tight_exists(m: Mask, b: BBox, x0: int, y0: int)
    requires
        fg_in_box(m, b, x0, y0),
        b.xmax as int <= u32::MAX as int,
        b.ymax as int <= u32::MAX as int,
    ensures
        is_tight_in(m, b, tight_of(m, b)),
{
    let lc = lemma_least_col(m, b, x0, y0);
    let gc = lemma_greatest_col(m, b, x0, y0);
    let lr = lemma_least_row(m, b, x0, y0);
    let gr = lemma_greatest_row(m, b, x0, y0);
    let tb = BBox {
        xmin: lc.0 as u32,
        ymin: lr.1 as u32,
        xmax: (gc.0 + 1) as u32,
        ymax: (gr.1 + 1) as u32,
    };
    assert(is_tight_in(m, b, tb)) by {
        assert(fg_in_box(m, b, lc.0, lc.1) && lc.0 == tb.xmin as int);
        assert(fg_in_box(m, b, gc.0, gc.1) && gc.0 + 1 == tb.xmax as int);
        assert(fg_in_box(m, b, lr.0, lr.1) && lr.1 == tb.ymin as int);
        assert(fg_in_box(m, b, gr.0, gr.1) && gr.1 + 1 == tb.ymax as int);
    }
    assert(is_tight_in(m, b, tight_of(m, b))) by {
        assert(exists|q: BBox| is_tight_in(m, b, q));
    }
}

/// A box that passes the noise filter contributes its tight box to the
/// filtered list.
proof fn lemma_filter_member(m: Mask, bs: Seq<BBox>, k: int)
    requires
        0 <= k < bs.len(),
        keeps_box(m, bs[k]),
        bs[k].xmax as int <= u32::MAX as int,
        bs[k].ymax as int <= u32::MAX as int,
    ensures
        spec_tighten_filter(m, bs).contains(tight_of(m, bs[k])),
    decreases bs,
{
    broadcast use vstd::seq_lib::lemma_seq_contains_after_push;

    let pre = spec_tighten_filter(m, bs.drop_last());
    if k == bs.len() - 1 {
        assert(spec_tighten_filter(m, bs) == pre + seq![tight_of(m, bs[k])]);
        let full = pre + seq![tight_of(m, bs[k])];
        assert(full[pre.len() as int] == tight_of(m, bs[k]));
    } else {
        assert(bs.drop_last()[k] == bs[k]);
        lemma_filter_member(m, bs.drop_last(), k);
        let i = choose|i: int| 0 <= i < pre.len() && pre[i] == tight_of(m, bs[k]);
        assert(spec_tighten_filter(m, bs)[i] == pre[i]);
    }
}

/// The boxes the split/merge stages produce, before tightening and
/// filtering; empty when the mask has no foreground.
pub open spec fn partition_prefilter(m: Mask, max_depth: u32, min_size: u32) -> Seq<BBox> {
    if !has_fg(m) {
        Seq::empty()
    } else {
        match spec_split(m, tight_of(m, full_box(m)), max_depth, min_size) {
            Option::None => Seq::empty(),
            Option::Some(t) => collect_spec(spec_merge(t)),
        }
    }
}

/// Law of the partitioner's coverage: every foreground pixel of the mask
/// lies inside some returned box, provided the noise filter drops either
/// none or all of the merged leaves. Read on a mask rebuilt from the
/// union of previously returned boxes (filled solid), this says the
/// rerun partition covers that union: re-partitioning loses no covered
/// pixel.
pub proof fn lemma_partition_covers(m: Mask, max_depth: u32, min_size: u32, x: int, y: int)
    requires
        m.wf(),
        m.width as int <= u32::MAX as int,
        m.height as int <= u32::MAX as int,
        m.in_bounds(x, y),
        m.at(x, y),
        (forall|i: int| 0 <= i < partition_prefilter(m, max_depth, min_size).len()
            ==> keeps_box(m, #[trigger] partition_prefilter(m, max_depth, min_size)[i]))
            || (forall|i: int| 0 <= i < partition_prefilter(m, max_depth, min_size).len()
                ==> !keeps_box(m, #[trigger] partition_prefilter(m, max_depth, min_size)[i])),
    ensures
        crate::quadtree::covered_by(spec_partition(m, max_depth, min_size), x, y),
{
    let full = full_box(m);
    assert(has_fg(m));
    assert(fg_in_box(m, full, x, y));
    lemma_tight_exists(m, full, x, y);
    let ext = tight_of(m, full);
    assert(box_contains(ext, x, y));
    crate::quadtree::lemma_split_covers(m, ext, max_depth, min_size, x, y);
    let t = spec_split(m, ext, max_depth, min_size)->Some_0;
    crate::quadtree::lemma_merge_covers(t, x, y);
    let pf = partition_prefilter(m, max_depth, min_size);
    assert(pf == collect_spec(spec_merge(t)));
    let k = choose|k: int| 0 <= k < pf.len() && box_contains(#[trigger] pf[k], x, y);
    let filtered = spec_tighten_filter(m, pf);
    if forall|i: int| 0 <= i < pf.len() ==> keeps_box(m, #[trigger] pf[i]) {
        assert(keeps_box(m, pf[k]));
        assert(fg_in_box(m, pf[k], x, y));
        lemma_tight_exists(m, pf[k], x, y);
        assert(box_contains(tight_of(m, pf[k]), x, y));
        lemma_filter_member(m, pf, k);
        let i = choose|i: int| 0 <= i < filtered.len() && filtered[i] == tight_of(m, pf[k]);
        assert(filtered.len() > 0);
        assert(spec_partition(m, max_depth, min_size) == filtered);
        assert(box_contains(spec_partition(m, max_depth, min_size)[i], x, y));
    } else {
        assert(filtered.len() == 0) by {
            lemma_filter_drops_all(m, pf);
        }
        assert(spec_partition(m, max_depth, min_size) == pf);
        assert(box_contains(spec_partition(m, max_depth, min_size)[k], x, y));
    }
}

/// When no box passes the filter, the filtered list is empty.
proof fn lemma_filter_drops_all(m: Mask, bs: Seq<BBox>)
    requires
        forall|i: int| 0 <= i < bs.len() ==> !keeps_box(m, #[trigger] bs[i]),
    ensures
        spec_tighten_filter(m, bs).len() == 0,
    decreases bs,
{
    if bs.len() > 0 {
        assert forall|i: int| 0 <= i < bs.drop_last().len()
            implies !keeps_box(m, #[trigger] bs.drop_last()[i]) by {
            assert(bs.drop_last()[i] == bs[i]);
        }
        lemma_filter_drops_all(m, bs.drop_last());
        assert(!keeps_box(m, bs.last()));
    }
}

} // verus!
