use vstd::prelude::*;

use crate::connectivity::{fg, flood_fill, lemma_reach_fg, lemma_reach_sym, lemma_reach_trans, reach};
use crate::grid::{lemma_grid_index, Mask};

verus! {

/// The label stored for cell `(x, y)` of the grid.
pub open spec fn label_at(m: Mask, s: Seq<u32>, x: int, y: int) -> u32 {
    s[y * m.width + x]
}

/// `s` is a connected-component labeling of `m`: background cells carry
/// 0, foreground cells a nonzero label, and two foreground cells carry
/// the same label exactly when they are 8-connected.
pub open spec fn labels_wf(m: Mask, s: Seq<u32>) -> bool {
    &&& s.len() == m.width * m.height
    &&& (forall|x: int, y: int| m.in_bounds(x, y)
        ==> ((#[trigger] label_at(m, s, x, y) == 0) <==> !m.at(x, y)))
    &&& (forall|x1: int, y1: int, x2: int, y2: int|
        #![trigger label_at(m, s, x1, y1), label_at(m, s, x2, y2)]
        fg(m, x1, y1) && fg(m, x2, y2)
            ==> (label_at(m, s, x1, y1) == label_at(m, s, x2, y2)
                <==> reach(m, x1, y1, x2, y2)))
}

/// The largest label of the grid.
pub open spec fn max_label(s: Seq<u32>) -> int
    decreases s,
{
    if s.len() == 0 {
        0
    } else if s.last() as int >= max_label(s.drop_last()) {
        s.last() as int
    } else {
        max_label(s.drop_last())
    }
}

/// Labels are handed out in raster order of each component's first
/// pixel: a nonzero label either appeared earlier in the grid, or is one
/// more than the largest label seen so far.
pub open spec fn canonical(s: Seq<u32>) -> bool {
    forall|i: int| 0 <= i < s.len() && (#[trigger] s[i]) != 0
        ==> ((exists|j: int| 0 <= j < i && s[j] == s[i])
            || s[i] as int == max_label(s.take(i)) + 1)
}

pub proof fn lemma_max_label_bounds(s: Seq<u32>, bound: int)
    requires
        forall|i: int| 0 <= i < s.len() ==> (#[trigger] s[i]) as int <= bound,
        bound >= 0,
    ensures
        0 <= max_label(s) <= bound,
    decreases s,
{
    if s.len() > 0 {
        assert forall|i: int| 0 <= i < s.drop_last().len()
            implies (#[trigger] s.drop_last()[i]) as int <= bound by {
            assert(s.drop_last()[i] == s[i]);
        }
        lemma_max_label_bounds(s.drop_last(), bound);
    }
}

pub proof fn lemma_max_label_contains(s: Seq<u32>, i: int)
    requires
        0 <= i < s.len(),
    ensures
        max_label(s) >= s[i] as int,
    decreases s,
{
    if i < s.len() - 1 {
        assert(s.drop_last()[i] == s[i]);
        lemma_max_label_contains(s.drop_last(), i);
    }
}

/// Labels each 8-connected foreground component of the mask with a
/// distinct id, 1 upward in raster order of first appearance; background
/// cells get 0. Also returns the number of components.
pub fn connected_components(mask: &Mask) -> (r: (Vec<u32>, u32))
    requires
        mask.wf(),
        mask.width * mask.height <= 0xffff_ffff,
    ensures
        labels_wf(*mask, r.0@),
        canonical(r.0@),
        r.1 as int == max_label(r.0@),
        r.1 as int <= mask.width * mask.height,
{
    let ghost m = *mask;
    let width = mask.width;
    let height = mask.height;
    let n = mask.data.len();
    let mut labels: Vec<u32> = Vec::new();
    let mut z: usize = 0;
    while z < n
        invariant
            z <= n,
            labels@.len() == z,
            forall|i: int| 0 <= i < z ==> labels@[i] == 0,
        decreases n - z,
    {
        labels.push(0);
        z = z + 1;
    }
    let mut next: u32 = 0;
    proof {
        lemma_cc_initial(m, labels@);
    }
    let mut y: usize = 0;
    while y < height
        invariant
            mask.wf(),
            m == *mask,
            width == m.width,
            height == m.height,
            n == m.width * m.height,
            n <= 0xffff_ffff,
            y <= height,
            labels@.len() == n,
            next as int <= (y * width) as int,
            cc_inv(m, labels@, next, y as int * width as int),
        decreases height - y,
    {
        let mut x: usize = 0;
        while x < width
            invariant
                mask.wf(),
                m == *mask,
                width == m.width,
                height == m.height,
                n == m.width * m.height,
                n <= 0xffff_ffff,
                y < height,
                x <= width,
                labels@.len() == n,
                next as int <= (y * width + x) as int,
                cc_inv(m, labels@, next, y as int * width as int + x as int),
            decreases width - x,
        {
            let ghost pos = y as int * width as int + x as int;
            proof {
                lemma_grid_index(width as int, height as int, x as int, y as int);
            }
            if mask.get(x, y) && labels[y * width + x] == 0 {
                let comp = flood_fill(mask, x, y);
                proof {
                    crate::connectivity::lemma_reach_refl(m, x as int, y as int);
                }
                next = next + 1;
                let ghost old_labels = labels@;
                let mut b: usize = 0;
                while b < height
                    invariant
                        mask.wf(),
                        m == *mask,
                        width == m.width,
                        height == m.height,
                        comp.wf(),
                        comp.width == width,
                        comp.height == height,
                        forall|c: int, d: int| comp.in_bounds(c, d)
                            ==> (comp.at(c, d) <==> reach(m, x as int, y as int, c, d)),
                        b <= height,
                        labels@.len() == n,
                        n == m.width * m.height,
                        old_labels.len() == n,
                        forall|i: int| 0 <= i < n
                            ==> labels@[i] == if i < b * m.width
                                && comp.data@[i] { next } else { old_labels[i] },
                    decreases height - b,
                {
                    let mut a: usize = 0;
                    while a < width
                        invariant
                            mask.wf(),
                            m == *mask,
                            width == m.width,
                            height == m.height,
                            comp.wf(),
                            comp.width == width,
                            comp.height == height,
                            forall|c: int, d: int| comp.in_bounds(c, d)
                                ==> (comp.at(c, d) <==> reach(m, x as int, y as int, c, d)),
                            b < height,
                            a <= width,
                            labels@.len() == n,
                            n == m.width * m.height,
                            old_labels.len() == n,
                            forall|i: int| 0 <= i < n
                                ==> labels@[i] == if i < b * m.width + a
                                    && comp.data@[i] { next } else { old_labels[i] },
                        decreases width - a,
                    {
                        proof {
                            lemma_grid_index(width as int, height as int, a as int, b as int);
                        }
                        if comp.get(a, b) {
                            labels.set(b * width + a, next);
                        }
                        a = a + 1;
                    }
                    proof {
                        assert((b + 1) * m.width == b * m.width + m.width) by (nonlinear_arith);
                    }
                    b = b + 1;
                }
                proof {
                    assert(height * m.width == n) by (nonlinear_arith)
                        requires n == m.width * m.height && height == m.height;
                    assert(forall|i: int| 0 <= i < n
                        ==> labels@[i] == if comp.data@[i] { next } else { old_labels[i] });
                    lemma_cc_fill(m, old_labels, labels@, comp, next, pos, x as int, y as int);
                }
            } else {
                proof {
                    lemma_cc_skip(m, labels@, next, pos, x as int, y as int);
                }
            }
            x = x + 1;
        }
        proof {
            assert((y + 1) * width == y * width + width) by (nonlinear_arith);
        }
        y = y + 1;
    }
    proof {
        assert(height * width == n) by (nonlinear_arith)
            requires n == m.width * m.height && height == m.height && width == m.width;
        lemma_cc_final(m, labels@, next);
    }
    (labels, next)
}

/// The labeling invariant at scan position `pos` (a linear index):
/// cells of components whose first pixel lies before `pos` are labeled,
/// all others are 0; equal nonzero labels mean connectivity; labels
/// range over `1..=next`, each appearing before `pos`; and the
/// numbering is canonical.
pub open spec fn cc_inv(m: Mask, s: Seq<u32>, next: u32, pos: int) -> bool {
    &&& s.len() == m.width * m.height
    &&& (forall|x: int, y: int| m.in_bounds(x, y) && !m.at(x, y)
        ==> #[trigger] label_at(m, s, x, y) == 0)
    &&& (forall|x: int, y: int| fg(m, x, y)
        ==> ((#[trigger] label_at(m, s, x, y)) != 0 <==> (exists|c: int, d: int|
            reach(m, x, y, c, d) && d * m.width + c < pos)))
    &&& (forall|x1: int, y1: int, x2: int, y2: int|
        #![trigger label_at(m, s, x1, y1), label_at(m, s, x2, y2)]
        fg(m, x1, y1) && fg(m, x2, y2) && label_at(m, s, x1, y1) != 0
            && label_at(m, s, x2, y2) != 0
            ==> (label_at(m, s, x1, y1) == label_at(m, s, x2, y2)
                <==> reach(m, x1, y1, x2, y2)))
    &&& (forall|i: int| 0 <= i < s.len() ==> (#[trigger] s[i]) as int <= next as int)
    &&& (next > 0 ==> (exists|j: int| 0 <= j < pos && 0 <= j < s.len() && s[j] == next))
    &&& canonical(s)
}

/// The all-zero grid is a valid labeling state before any cell is
/// scanned.
proof fn lemma_cc_initial(m: Mask, s: Seq<u32>)
    requires
        m.wf(),
        s.len() == m.width * m.height,
        forall|i: int| 0 <= i < s.len() ==> s[i] == 0,
    ensures
        cc_inv(m, s, 0, 0),
{
    assert forall|x: int, y: int| m.in_bounds(x, y)
        implies #[trigger] label_at(m, s, x, y) == 0 by {
        lemma_grid_index(m.width as int, m.height as int, x, y);
    }
    assert forall|a: int, b: int| fg(m, a, b)
        implies ((#[trigger] label_at(m, s, a, b)) != 0 <==> (exists|c: int, d: int|
            reach(m, a, b, c, d) && d * m.width + c < 0)) by {
        lemma_grid_index(m.width as int, m.height as int, a, b);
        if exists|c: int, d: int| reach(m, a, b, c, d) && d * m.width + c < 0 {
            let (c, d) = choose|c: int, d: int| reach(m, a, b, c, d) && d * m.width + c < 0;
            lemma_reach_fg(m, a, b, c, d);
            lemma_grid_index(m.width as int, m.height as int, c, d);
        }
    }
}

proof fn lemma_cc_skip(m: Mask, s: Seq<u32>, next: u32, pos: int, x: int, y: int)
    requires
        m.wf(),
        m.in_bounds(x, y),
        pos == y * m.width + x,
        cc_inv(m, s, next, pos),
        fg(m, x, y) ==> label_at(m, s, x, y) != 0,
    ensures
        cc_inv(m, s, next, pos + 1),
{
    assert forall|a: int, b: int| fg(m, a, b)
        implies ((#[trigger] label_at(m, s, a, b)) != 0 <==> (exists|c: int, d: int|
            reach(m, a, b, c, d) && d * m.width + c < pos + 1)) by {
        if label_at(m, s, a, b) != 0 {
            let (c, d) = choose|c: int, d: int| reach(m, a, b, c, d) && d * m.width + c < pos;
            assert(reach(m, a, b, c, d) && d * m.width + c < pos + 1);
        } else {
            if exists|c: int, d: int| reach(m, a, b, c, d) && d * m.width + c < pos + 1 {
                let (c, d) = choose|c: int, d: int|
                    reach(m, a, b, c, d) && d * m.width + c < pos + 1;
                if d * m.width + c < pos {
                    assert(label_at(m, s, a, b) != 0);
                } else {
                    assert(d * m.width + c == pos);
                    assert(c == x && d == y) by {
                        lemma_reach_fg(m, a, b, c, d);
                        crate::grid::lemma_grid_index(m.width as int, m.height as int, c, d);
                        if !(c == x && d == y) {
                            crate::grid::lemma_grid_index_injective(
                                m.width as int, m.height as int, c, d, x, y);
                        }
                    }
                    assert(label_at(m, s, x, y) != 0);
                    let (c2, d2) = choose|c2: int, d2: int|
                        reach(m, x, y, c2, d2) && d2 * m.width + c2 < pos;
                    lemma_reach_trans(m, a, b, x, y, c2, d2);
                    assert(label_at(m, s, a, b) != 0);
                }
            }
        }
    }
}

proof fn lemma_cc_fill(
    m: Mask,
    old_s: Seq<u32>,
    s: Seq<u32>,
    comp: Mask,
    next: u32,
    pos: int,
    x: int,
    y: int,
)
    requires
        m.wf(),
        m.in_bounds(x, y),
        m.at(x, y),
        pos == y * m.width + x,
        cc_inv(m, old_s, (next - 1) as u32, pos),
        next >= 1,
        label_at(m, old_s, x, y) == 0,
        comp.wf(),
        comp.width == m.width,
        comp.height == m.height,
        forall|c: int, d: int| comp.in_bounds(c, d)
            ==> (#[trigger] comp.at(c, d) <==> reach(m, x, y, c, d)),
        s.len() == old_s.len(),
        old_s.len() == m.width * m.height,
        forall|i: int| 0 <= i < s.len()
            ==> s[i] == if comp.data@[i] { next } else { old_s[i] },
    ensures
        cc_inv(m, s, next, pos + 1),
{
    let w = m.width as int;
    let h = m.height as int;
    // A cell is newly labeled exactly when it belongs to the component
    // of the scan cell.
    assert forall|a: int, b: int| m.in_bounds(a, b)
        implies #[trigger] label_at(m, s, a, b) == if reach(m, x, y, a, b) { next } else {
            label_at(m, old_s, a, b)
        } by {
        lemma_grid_index(w, h, a, b);
        assert(comp.at(a, b) == comp.data@[b * w + a]);
        assert(comp.at(a, b) <==> reach(m, x, y, a, b));
    }
    // No cell reachable from the scan cell was labeled before.
    assert forall|a: int, b: int| m.in_bounds(a, b) && reach(m, x, y, a, b)
        implies label_at(m, old_s, a, b) == 0 by {
        lemma_reach_fg(m, x, y, a, b);
        if label_at(m, old_s, a, b) != 0 {
            let (c, d) = choose|c: int, d: int| reach(m, a, b, c, d) && d * w + c < pos;
            lemma_reach_trans(m, x, y, a, b, c, d);
            assert(label_at(m, old_s, x, y) != 0);
        }
    }
    // Background cells stay 0.
    assert forall|a: int, b: int| m.in_bounds(a, b) && !m.at(a, b)
        implies #[trigger] label_at(m, s, a, b) == 0 by {
        if reach(m, x, y, a, b) {
            lemma_reach_fg(m, x, y, a, b);
        }
    }
    // Labeled-iff-seen-before, at pos + 1.
    assert forall|a: int, b: int| fg(m, a, b)
        implies ((#[trigger] label_at(m, s, a, b)) != 0 <==> (exists|c: int, d: int|
            reach(m, a, b, c, d) && d * w + c < pos + 1)) by {
        if reach(m, x, y, a, b) {
            lemma_reach_sym(m, x, y, a, b);
            assert(reach(m, a, b, x, y) && y * w + x < pos + 1);
        } else {
            if label_at(m, s, a, b) != 0 {
                assert(label_at(m, old_s, a, b) != 0);
                let (c, d) = choose|c: int, d: int| reach(m, a, b, c, d) && d * w + c < pos;
            } else {
                if exists|c: int, d: int| reach(m, a, b, c, d) && d * w + c < pos + 1 {
                    let (c, d) = choose|c: int, d: int|
                        reach(m, a, b, c, d) && d * w + c < pos + 1;
                    if d * w + c < pos {
                        assert(label_at(m, old_s, a, b) != 0);
                    } else {
                        lemma_reach_fg(m, a, b, c, d);
                        crate::grid::lemma_grid_index(w, h, c, d);
                        if !(c == x && d == y) {
                            crate::grid::lemma_grid_index_injective(w, h, c, d, x, y);
                        }
                        assert(c == x && d == y);
                        lemma_reach_sym(m, a, b, x, y);
                        assert(reach(m, x, y, a, b));
                    }
                }
            }
        }
    }
    // Equal labels mean connectivity.
    assert forall|x1: int, y1: int, x2: int, y2: int|
        #![trigger label_at(m, s, x1, y1), label_at(m, s, x2, y2)]
        fg(m, x1, y1) && fg(m, x2, y2) && label_at(m, s, x1, y1) != 0
            && label_at(m, s, x2, y2) != 0
        implies (label_at(m, s, x1, y1) == label_at(m, s, x2, y2)
            <==> reach(m, x1, y1, x2, y2)) by {
        let in1 = reach(m, x, y, x1, y1);
        let in2 = reach(m, x, y, x2, y2);
        if in1 && in2 {
            lemma_reach_sym(m, x, y, x1, y1);
            lemma_reach_trans(m, x1, y1, x, y, x2, y2);
        } else if in1 && !in2 {
            assert(label_at(m, s, x2, y2) == label_at(m, old_s, x2, y2));
            assert(label_at(m, old_s, x2, y2) as int <= next - 1) by {
                lemma_grid_index(w, h, x2, y2);
                assert(old_s[y2 * w + x2] as int <= next - 1);
            }
            assert(label_at(m, s, x1, y1) == next);
            if reach(m, x1, y1, x2, y2) {
                lemma_reach_trans(m, x, y, x1, y1, x2, y2);
            }
        } else if !in1 && in2 {
            assert(label_at(m, s, x1, y1) == label_at(m, old_s, x1, y1));
            assert(label_at(m, old_s, x1, y1) as int <= next - 1) by {
                lemma_grid_index(w, h, x1, y1);
                assert(old_s[y1 * w + x1] as int <= next - 1);
            }
            assert(label_at(m, s, x2, y2) == next);
            if reach(m, x1, y1, x2, y2) {
                lemma_reach_sym(m, x1, y1, x2, y2);
                lemma_reach_trans(m, x, y, x2, y2, x1, y1);
            }
        } else {
            assert(label_at(m, s, x1, y1) == label_at(m, old_s, x1, y1));
            assert(label_at(m, s, x2, y2) == label_at(m, old_s, x2, y2));
        }
    }
    // The new top label appears at the scan position itself.
    assert(exists|j: int| 0 <= j < pos + 1 && 0 <= j < s.len() && s[j] == next) by {
        lemma_grid_index(w, h, x, y);
        assert(comp.at(x, y)) by {
            crate::connectivity::lemma_reach_refl(m, x, y);
        }
        assert(comp.data@[pos]);
        assert(s[pos] == next);
    }
    // The component holds no cell before the scan position: such a cell
    // would have forced a label on the scan cell already.
    assert(pos < w * h) by {
        lemma_grid_index(w, h, x, y);
    }
    assert forall|q: int| 0 <= q < pos implies !comp.data@[q] by {
        assert(comp.data@.len() == w * h);
        if comp.data@[q] {
            let (c, d) = ((q % w) as int, (q / w) as int);
            lemma_div_mod_grid(q, w, h);
            assert(comp.at(c, d));
            assert(reach(m, x, y, c, d));
            assert(label_at(m, old_s, x, y) != 0);
        }
    }
    assert(s.take(pos) =~= old_s.take(pos)) by {
        assert forall|i: int| 0 <= i < pos implies s[i] == old_s[i] by {
            assert(!comp.data@[i]);
        }
    }
    // Canonical numbering is kept.
    assert forall|i: int| 0 <= i < s.len() && (#[trigger] s[i]) != 0
        implies ((exists|j: int| 0 <= j < i && s[j] == s[i])
            || s[i] as int == max_label(s.take(i)) + 1) by {
        lemma_grid_index(w, h, x, y);
        assert(comp.at(x, y)) by {
            crate::connectivity::lemma_reach_refl(m, x, y);
        }
        assert(comp.data@[pos]);
        assert(s[pos] == next);
        if s[i] == next {
            if i > pos {
                assert(0 <= pos < i && s[pos] == s[i]);
            } else if i == pos {
                assert forall|q: int| 0 <= q < old_s.take(pos).len()
                    implies (#[trigger] old_s.take(pos)[q]) as int <= next - 1 by {
                    assert(old_s.take(pos)[q] == old_s[q]);
                }
                lemma_max_label_bounds(old_s.take(pos), next - 1);
                if next >= 2 {
                    let j = choose|j: int|
                        0 <= j < pos && 0 <= j < old_s.len() && old_s[j] == (next - 1) as u32;
                    assert(old_s.take(pos)[j] == (next - 1) as u32);
                    lemma_max_label_contains(old_s.take(pos), j);
                }
                assert(max_label(old_s.take(pos)) == next - 1);
                assert(max_label(s.take(pos)) == next - 1);
            } else {
                // i < pos is untouched, and old labels stay below next.
                assert(s[i] == old_s[i]);
                assert(old_s[i] as int <= next - 1);
                assert(false);
            }
        } else {
            assert(!comp.data@[i]);
            assert(s[i] == old_s[i]);
            if exists|j: int| 0 <= j < i && old_s[j] == old_s[i] {
                let j = choose|j: int| 0 <= j < i && old_s[j] == old_s[i];
                assert(!comp.data@[j] ==> s[j] == old_s[j]);
                if comp.data@[j] {
                    let (c, d) = ((j % w) as int, (j / w) as int);
                    lemma_div_mod_grid(j, w, h);
                    assert(comp.at(c, d));
                    assert(reach(m, x, y, c, d));
                    assert(label_at(m, old_s, c, d) == 0);
                    assert(old_s[j] == 0);
                }
                assert(s[j] == s[i]);
            } else {
                // i is the first cell of its component, scanned earlier.
                assert(old_s[i] as int == max_label(old_s.take(i)) + 1);
                let (a, b) = ((i % w) as int, (i / w) as int);
                lemma_div_mod_grid(i, w, h);
                assert(label_at(m, old_s, a, b) == old_s[i]);
                assert(fg(m, a, b)) by {
                    if !(m.at(a, b)) {
                        assert(label_at(m, old_s, a, b) == 0);
                    }
                }
                let (c, d) = choose|c: int, d: int| reach(m, a, b, c, d) && d * w + c < pos;
                lemma_reach_fg(m, a, b, c, d);
                lemma_grid_index(w, h, c, d);
                assert(label_at(m, old_s, c, d) != 0) by {
                    crate::connectivity::lemma_reach_refl(m, c, d);
                    assert(reach(m, c, d, c, d) && d * w + c < pos);
                }
                assert(label_at(m, old_s, c, d) == old_s[i]) by {
                    assert(label_at(m, old_s, c, d) == label_at(m, old_s, a, b));
                }
                let j0 = d * w + c;
                assert(old_s[j0] == old_s[i]);
                assert(j0 >= i);
                assert(i < pos);
                assert(s.take(i) =~= old_s.take(i)) by {
                    assert forall|q: int| 0 <= q < i implies s[q] == old_s[q] by {
                        assert(!comp.data@[q]);
                    }
                }
                assert(max_label(s.take(i)) == max_label(old_s.take(i)));
            }
        }
    }
}

/// Linking a linear index to its grid coordinates.
pub proof fn lemma_div_mod_grid(i: int, w: int, h: int)
    requires
        0 <= i < w * h,
        w > 0,
    ensures
        0 <= i % w < w,
        0 <= i / w < h,
        (i / w) * w + (i % w) == i,
{
    assert(0 <= i % w < w && i == w * (i / w) + i % w) by (nonlinear_arith)
        requires w > 0 && 0 <= i;
    assert(0 <= i / w < h) by (nonlinear_arith)
        requires w > 0 && 0 <= i < w * h && i == w * (i / w) + i % w && 0 <= i % w < w;
    assert((i / w) * w == w * (i / w)) by (nonlinear_arith);
}

proof fn lemma_cc_final(m: Mask, s: Seq<u32>, next: u32)
    requires
        m.wf(),
        cc_inv(m, s, next, m.width * m.height),
    ensures
        labels_wf(m, s),
        canonical(s),
        next as int == max_label(s),
{
    assert forall|x: int, y: int| m.in_bounds(x, y)
        implies ((#[trigger] label_at(m, s, x, y) == 0) <==> !m.at(x, y)) by {
        if m.at(x, y) {
            crate::connectivity::lemma_reach_refl(m, x, y);
            lemma_grid_index(m.width as int, m.height as int, x, y);
            assert(reach(m, x, y, x, y) && y * m.width + x < m.width * m.height);
            assert(label_at(m, s, x, y) != 0);
        }
    }
    if next == 0 {
        lemma_max_label_bounds(s, 0);
    } else {
        lemma_max_label_bounds(s, next as int);
        let j = choose|j: int|
            0 <= j < m.width * m.height && 0 <= j < s.len() && s[j] == next;
        lemma_max_label_contains(s, j);
    }
}

} // verus!
