use vstd::prelude::*;

use crate::grid::Mask;

verus! {

broadcast use vstd::seq_lib::lemma_seq_contains_after_push;

/// Two distinct grid cells are 8-adjacent: they differ by at most one
/// in each coordinate.
pub open spec fn adj8(x1: int, y1: int, x2: int, y2: int) -> bool {
    !(x1 == x2 && y1 == y2) && -1 <= x1 - x2 <= 1 && -1 <= y1 - y2 <= 1
}

/// `(x, y)` is an in-bounds foreground cell of `m`.
pub open spec fn fg(m: Mask, x: int, y: int) -> bool {
    m.in_bounds(x, y) && m.at(x, y)
}

/// A path: a non-empty sequence of foreground cells, each 8-adjacent to
/// the next.
pub open spec fn is_path(m: Mask, p: Seq<(int, int)>) -> bool {
    &&& p.len() >= 1
    &&& (forall|i: int| 0 <= i < p.len() ==> fg(m, (#[trigger] p[i]).0, p[i].1))
    &&& (forall|i: int| 0 <= i < p.len() - 1 ==> adj8(
        (#[trigger] p[i]).0,
        p[i].1,
        p[i + 1].0,
        p[i + 1].1,
    ))
}

/// `(x2, y2)` is reachable from `(x1, y1)` through 8-connected
/// foreground of `m`.
pub open spec fn reach(m: Mask, x1: int, y1: int, x2: int, y2: int) -> bool {
    exists|p: Seq<(int, int)>|
        is_path(m, p) && p[0] == (x1, y1) && p.last() == (x2, y2)
}

/// Reachability starts and ends on foreground.
pub proof fn lemma_reach_fg(m: Mask, x1: int, y1: int, x2: int, y2: int)
    requires
        reach(m, x1, y1, x2, y2),
    ensures
        fg(m, x1, y1),
        fg(m, x2, y2),
{
    let p = choose|p: Seq<(int, int)>|
        is_path(m, p) && p[0] == (x1, y1) && p.last() == (x2, y2);
    assert(fg(m, p[0].0, p[0].1));
    assert(fg(m, p[p.len() - 1].0, p[p.len() - 1].1));
}

/// Every foreground cell reaches itself.
pub proof fn lemma_reach_refl(m: Mask, x: int, y: int)
    requires
        fg(m, x, y),
    ensures
        reach(m, x, y, x, y),
{
    let p = seq![(x, y)];
    assert(is_path(m, p));
    assert(p[0] == (x, y) && p.last() == (x, y));
}

/// Reachability extends over one adjacent foreground cell.
pub proof fn lemma_reach_step(m: Mask, x1: int, y1: int, x2: int, y2: int, x3: int, y3: int)
    requires
        reach(m, x1, y1, x2, y2),
        adj8(x2, y2, x3, y3),
        fg(m, x3, y3),
    ensures
        reach(m, x1, y1, x3, y3),
{
    let p = choose|p: Seq<(int, int)>|
        is_path(m, p) && p[0] == (x1, y1) && p.last() == (x2, y2);
    let q = p.push((x3, y3));
    assert(is_path(m, q)) by {
        assert(forall|i: int| 0 <= i < p.len() ==> q[i] == p[i]);
        assert(q[q.len() - 1] == (x3, y3));
        assert(q[p.len() - 1] == p.last());
    }
    assert(q[0] == (x1, y1) && q.last() == (x3, y3));
}

/// Walking a path backwards: the last cell reaches the first.
pub proof fn lemma_path_rev(m: Mask, p: Seq<(int, int)>)
    requires
        is_path(m, p),
    ensures
        reach(m, p.last().0, p.last().1, p[0].0, p[0].1),
    decreases p.len(),
{
    if p.len() == 1 {
        lemma_reach_refl(m, p[0].0, p[0].1);
    } else {
        let q = p.drop_first();
        assert(is_path(m, q)) by {
            assert(forall|i: int| 0 <= i < q.len() ==> q[i] == p[i + 1]);
        }
        assert(q.last() == p.last());
        lemma_path_rev(m, q);
        assert(adj8(p[0].0, p[0].1, p[1].0, p[1].1));
        lemma_reach_step(m, p.last().0, p.last().1, q[0].0, q[0].1, p[0].0, p[0].1);
    }
}

/// Reachability is symmetric.
pub proof fn lemma_reach_sym(m: Mask, x1: int, y1: int, x2: int, y2: int)
    requires
        reach(m, x1, y1, x2, y2),
    ensures
        reach(m, x2, y2, x1, y1),
{
    let p = choose|p: Seq<(int, int)>|
        is_path(m, p) && p[0] == (x1, y1) && p.last() == (x2, y2);
    lemma_path_rev(m, p);
}

/// Reachability is transitive.
pub proof fn lemma_reach_trans(m: Mask, x1: int, y1: int, x2: int, y2: int, x3: int, y3: int)
    requires
        reach(m, x1, y1, x2, y2),
        reach(m, x2, y2, x3, y3),
    ensures
        reach(m, x1, y1, x3, y3),
{
    let p = choose|p: Seq<(int, int)>|
        is_path(m, p) && p[0] == (x1, y1) && p.last() == (x2, y2);
    let q = choose|q: Seq<(int, int)>|
        is_path(m, q) && q[0] == (x2, y2) && q.last() == (x3, y3);
    let r = p + q.drop_first();
    if q.len() == 1 {
        assert(p =~= r);
        assert(r[0] == (x1, y1) && r.last() == (x3, y3));
    } else {
        assert(is_path(m, r)) by {
            assert(forall|i: int| 0 <= i < p.len() ==> r[i] == p[i]);
            assert(forall|i: int| p.len() <= i < r.len() ==> r[i] == q[i - p.len() + 1]);
            assert forall|i: int| 0 <= i < r.len() - 1 implies adj8(
                (#[trigger] r[i]).0,
                r[i].1,
                r[i + 1].0,
                r[i + 1].1,
            ) by {
                if i < p.len() - 1 {
                    assert(r[i] == p[i] && r[i + 1] == p[i + 1]);
                } else if i == p.len() - 1 {
                    assert(r[i] == p.last() && r[i + 1] == q[1]);
                    assert(adj8(q[0].0, q[0].1, q[1].0, q[1].1));
                } else {
                    assert(r[i] == q[i - p.len() + 1] && r[i + 1] == q[i - p.len() + 2]);
                    assert(adj8(
                        q[i - p.len() + 1].0,
                        q[i - p.len() + 1].1,
                        q[i - p.len() + 2].0,
                        q[i - p.len() + 2].1,
                    ));
                }
            }
            assert forall|i: int| 0 <= i < r.len() implies fg(
                m,
                (#[trigger] r[i]).0,
                r[i].1,
            ) by {
                if i < p.len() {
                    assert(r[i] == p[i]);
                    assert(fg(m, p[i].0, p[i].1));
                } else {
                    assert(r[i] == q[i - p.len() + 1]);
                    assert(fg(m, q[i - p.len() + 1].0, q[i - p.len() + 1].1));
                }
            }
        }
        assert(r[0] == (x1, y1) && r.last() == (x3, y3));
    }
}

/// A set of cells that contains a cell and is closed under stepping to
/// adjacent foreground contains everything reachable from that cell.
/// The closed set is given as a mask `vis` over the same grid.
pub proof fn lemma_reach_closed(m: Mask, vis: Mask, p: Seq<(int, int)>)
    requires
        m.width == vis.width,
        m.height == vis.height,
        is_path(m, p),
        vis.at(p[0].0, p[0].1),
        forall|a: int, b: int, c: int, d: int|
            #![trigger vis.at(a, b), vis.at(c, d)]
            fg(m, a, b) && vis.at(a, b) && fg(m, c, d) && adj8(a, b, c, d) ==> vis.at(c, d),
    ensures
        vis.at(p.last().0, p.last().1),
    decreases p.len(),
{
    if p.len() > 1 {
        assert(fg(m, p[0].0, p[0].1) && fg(m, p[1].0, p[1].1));
        assert(adj8(p[0].0, p[0].1, p[1].0, p[1].1));
        assert(vis.at(p[1].0, p[1].1));
        let q = p.drop_first();
        assert(is_path(m, q)) by {
            assert(forall|i: int| 0 <= i < q.len() ==> q[i] == p[i + 1]);
        }
        assert(q[0] == p[1]);
        lemma_reach_closed(m, vis, q);
        assert(q.last() == p.last());
    }
}

/// How many cells of a boolean grid are set.
pub open spec fn count_true(s: Seq<bool>) -> int
    decreases s,
{
    if s.len() == 0 {
        0
    } else {
        count_true(s.drop_last()) + if s.last() {
            1int
        } else {
            0int
        }
    }
}

pub proof fn lemma_count_true_bounds(s: Seq<bool>)
    ensures
        0 <= count_true(s) <= s.len(),
    decreases s,
{
    if s.len() > 0 {
        lemma_count_true_bounds(s.drop_last());
    }
}

/// Setting one unset cell raises the count by one.
pub proof fn lemma_count_true_update(s: Seq<bool>, i: int)
    requires
        0 <= i < s.len(),
        !s[i],
    ensures
        count_true(s.update(i, true)) == count_true(s) + 1,
    decreases s,
{
    let t = s.update(i, true);
    if i == s.len() - 1 {
        assert(t.drop_last() =~= s.drop_last());
    } else {
        assert(t.drop_last() =~= s.drop_last().update(i, true));
        lemma_count_true_update(s.drop_last(), i);
        assert(t.last() == s.last());
    }
}

/// Appending a cell not yet present keeps a cell list duplicate-free.
pub proof fn lemma_push_fresh(s: Seq<(usize, usize)>, e: (usize, usize))
    requires
        s.no_duplicates(),
        forall|i: int| 0 <= i < s.len() ==> s[i] != e,
    ensures
        s.push(e).no_duplicates(),
{
    let t = s.push(e);
    assert forall|i: int, j: int| 0 <= i < t.len() && 0 <= j < t.len() && i != j
        implies t[i] != t[j] by {
        if i < s.len() && j < s.len() {
            assert(t[i] == s[i] && t[j] == s[j]);
        } else if j == s.len() && i < s.len() {
            assert(t[i] == s[i] && t[j] == e);
        } else {
            assert(t[j] == s[j] && t[i] == e);
        }
    }
}

/// The 8-neighborhood of a cell, clipped at the grid border: each
/// adjacent in-bounds cell exactly once.
pub fn neighbors_8(x: usize, y: usize, width: usize, height: usize) -> (r: Vec<(usize, usize)>)
    requires
        x < width,
        y < height,
    ensures
        forall|i: int| 0 <= i < r@.len() ==> (#[trigger] r@[i]).0 < width && r@[i].1 < height
            && adj8(x as int, y as int, r@[i].0 as int, r@[i].1 as int),
        forall|nx: int, ny: int| 0 <= nx < width && 0 <= ny < height
            && adj8(x as int, y as int, nx, ny)
            ==> r@.contains((nx as usize, ny as usize)),
        r@.no_duplicates(),
{
    let mut r: Vec<(usize, usize)> = Vec::new();
    let mut dy: usize = 0;
    while dy < 3
        invariant
            x < width,
            y < height,
            dy <= 3,
            forall|i: int| 0 <= i < r@.len() ==> (#[trigger] r@[i]).0 < width
                && r@[i].1 < height
                && adj8(x as int, y as int, r@[i].0 as int, r@[i].1 as int),
            forall|nx: int, ny: int| 0 <= nx < width && 0 <= ny < height
                && adj8(x as int, y as int, nx, ny) && ny - y + 1 < dy
                ==> r@.contains((nx as usize, ny as usize)),
            forall|i: int| 0 <= i < r@.len() ==> ((#[trigger] r@[i]).1 as int) - y + 1 < dy,
            r@.no_duplicates(),
        decreases 3 - dy,
    {
        let mut dx: usize = 0;
        while dx < 3
            invariant
                x < width,
                y < height,
                dy < 3,
                dx <= 3,
                forall|i: int| 0 <= i < r@.len() ==> (#[trigger] r@[i]).0 < width
                    && r@[i].1 < height
                    && adj8(x as int, y as int, r@[i].0 as int, r@[i].1 as int),
                forall|nx: int, ny: int| 0 <= nx < width && 0 <= ny < height
                    && adj8(x as int, y as int, nx, ny) && ny - y + 1 < dy
                    ==> r@.contains((nx as usize, ny as usize)),
                forall|nx: int|
                    #![trigger r@.contains((nx as usize, (y + dy - 1) as usize))]
                    0 <= nx < width && 0 <= y + dy - 1 < height
                    && adj8(x as int, y as int, nx, y + dy - 1) && nx - x + 1 < dx
                    ==> r@.contains((nx as usize, (y + dy - 1) as usize)),
                forall|i: int| 0 <= i < r@.len() ==> ((#[trigger] r@[i]).1 as int) - y + 1 < dy
                    || (((#[trigger] r@[i]).1 as int) - y + 1 == dy
                        && ((r@[i]).0 as int) - x + 1 < dx),
                r@.no_duplicates(),
            decreases 3 - dx,
        {
            if !(dx == 1 && dy == 1) {
                let nx_ok = if dx >= 1 { width - x > dx - 1 } else { x >= 1 };
                let ny_ok = if dy >= 1 { height - y > dy - 1 } else { y >= 1 };
                if nx_ok && ny_ok {
                    let nx = if dx >= 1 { x + (dx - 1) } else { x - 1 };
                    let ny = if dy >= 1 { y + (dy - 1) } else { y - 1 };
                    proof {
                        assert(nx as int == x + dx - 1 && ny as int == y + dy - 1);
                        assert(adj8(x as int, y as int, nx as int, ny as int));
                        assert forall|i: int| 0 <= i < r@.len()
                            implies r@[i] != (nx, ny) by {
                            assert((r@[i].1 as int) - y + 1 < dy
                                || ((r@[i].1 as int) - y + 1 == dy
                                    && (r@[i].0 as int) - x + 1 < dx));
                        }
                        lemma_push_fresh(r@, (nx, ny));
                    }
                    r.push((nx, ny));
                    proof {
                        assert(r@.contains((nx, ny)));
                    }
                }
            }
            dx = dx + 1;
        }
        proof {
            assert forall|nx: int, ny: int| 0 <= nx < width && 0 <= ny < height
                && adj8(x as int, y as int, nx, ny) && ny - y + 1 < dy + 1
                implies r@.contains((nx as usize, ny as usize)) by {
                if ny - y + 1 == dy as int {
                    assert(0 <= y + dy - 1 < height);
                    assert(r@.contains((nx as usize, (y + dy - 1) as usize)));
                }
            }
        }
        dy = dy + 1;
    }
    r
}

/// Marks exactly the cells reachable from the seed through 8-connected
/// foreground of the mask (breadth-first traversal).
pub fn flood_fill(mask: &Mask, sx: usize, sy: usize) -> (r: Mask)
    requires
        mask.wf(),
        mask.in_bounds(sx as int, sy as int),
        mask.at(sx as int, sy as int),
    ensures
        r.wf(),
        r.width == mask.width,
        r.height == mask.height,
        forall|x: int, y: int| r.in_bounds(x, y)
            ==> (r.at(x, y) <==> reach(*mask, sx as int, sy as int, x, y)),
{
    let ghost m = *mask;
    let n = mask.data.len();
    let width = mask.width;
    let height = mask.height;
    let mut visited = Mask::all_false(width, height);
    visited.set(sx, sy, true);
    proof {
        lemma_reach_refl(m, sx as int, sy as int);
    }
    let mut queue: Vec<(usize, usize)> = Vec::new();
    queue.push((sx, sy));
    let mut head: usize = 0;
    proof {
        assert(queue@[0] == (sx, sy));
        assert forall|x: int, y: int| visited.in_bounds(x, y) && #[trigger] visited.at(x, y)
            implies fg(m, x, y) && reach(m, sx as int, sy as int, x, y)
                && queue@.contains((x as usize, y as usize)) by {
            assert(x == sx as int && y == sy as int);
        }
    }
    while head < queue.len()
        invariant
            mask.wf(),
            m == *mask,
            width == m.width,
            height == m.height,
            visited.wf(),
            visited.width == width,
            visited.height == height,
            head <= queue@.len(),
            visited.at(sx as int, sy as int),
            forall|i: int| 0 <= i < queue@.len() ==> (#[trigger] queue@[i]).0 < width
                && queue@[i].1 < height && fg(m, queue@[i].0 as int, queue@[i].1 as int)
                && visited.at(queue@[i].0 as int, queue@[i].1 as int),
            forall|x: int, y: int| visited.in_bounds(x, y) && #[trigger] visited.at(x, y)
                ==> fg(m, x, y) && reach(m, sx as int, sy as int, x, y)
                    && queue@.contains((x as usize, y as usize)),
            forall|i: int, c: int, d: int|
                #![trigger queue@[i], visited.at(c, d)]
                0 <= i < head && 0 <= c < width && 0 <= d < height && fg(m, c, d)
                    && adj8(queue@[i].0 as int, queue@[i].1 as int, c, d)
                    ==> visited.at(c, d),
        decreases
            visited.data@.len() - count_true(visited.data@),
            queue@.len() - head,
    {
        let (cx, cy) = queue[head];
        let neigh = neighbors_8(cx, cy, width, height);
        let ghost vis0 = visited;
        let ghost q0 = queue@;
        let nn = neigh.len();
        let mut j: usize = 0;
        while j < nn
            invariant
                mask.wf(),
                m == *mask,
                width == m.width,
                height == m.height,
                visited.wf(),
                visited.width == width,
                visited.height == height,
                head < queue@.len(),
                queue@[head as int] == (cx, cy),
                cx < width,
                cy < height,
                nn == neigh@.len(),
                j <= nn,
                forall|i: int| 0 <= i < neigh@.len() ==> (#[trigger] neigh@[i]).0 < width
                    && neigh@[i].1 < height
                    && adj8(cx as int, cy as int, neigh@[i].0 as int, neigh@[i].1 as int),
                forall|nx: int, ny: int| 0 <= nx < width && 0 <= ny < height
                    && adj8(cx as int, cy as int, nx, ny)
                    ==> neigh@.contains((nx as usize, ny as usize)),
                visited.at(sx as int, sy as int),
                forall|i: int| 0 <= i < queue@.len() ==> (#[trigger] queue@[i]).0 < width
                    && queue@[i].1 < height && fg(m, queue@[i].0 as int, queue@[i].1 as int)
                    && visited.at(queue@[i].0 as int, queue@[i].1 as int),
                forall|x: int, y: int| visited.in_bounds(x, y) && #[trigger] visited.at(x, y)
                    ==> fg(m, x, y) && reach(m, sx as int, sy as int, x, y)
                        && queue@.contains((x as usize, y as usize)),
                forall|i: int, c: int, d: int|
                    #![trigger queue@[i], visited.at(c, d)]
                    0 <= i < head && 0 <= c < width && 0 <= d < height && fg(m, c, d)
                        && adj8(queue@[i].0 as int, queue@[i].1 as int, c, d)
                        ==> visited.at(c, d),
                forall|k: int| 0 <= k < j && fg(m, (#[trigger] neigh@[k]).0 as int, neigh@[k].1 as int)
                    ==> visited.at(neigh@[k].0 as int, neigh@[k].1 as int),
                vis0.width == width,
                vis0.height == height,
                vis0.wf(),
                count_true(vis0.data@) <= count_true(visited.data@),
                queue@.len() - q0.len() <= count_true(visited.data@) - count_true(vis0.data@),
                forall|x: int, y: int| vis0.in_bounds(x, y) && #[trigger] vis0.at(x, y)
                    ==> visited.at(x, y),
            decreases nn - j,
        {
            let (nx, ny) = neigh[j];
            let ghost vstart = visited;
            if mask.get(nx, ny) && !visited.get(nx, ny) {
                proof {
                    lemma_count_true_bounds(visited.data@);
                    crate::grid::lemma_grid_index(
                        width as int,
                        height as int,
                        nx as int,
                        ny as int,
                    );
                    lemma_count_true_update(
                        visited.data@,
                        ny as int * width as int + nx as int,
                    );
                    lemma_reach_step(
                        m,
                        sx as int,
                        sy as int,
                        cx as int,
                        cy as int,
                        nx as int,
                        ny as int,
                    );
                }
                let ghost qpre = queue@;
                let ghost vpre = visited;
                visited.set(nx, ny, true);
                queue.push((nx, ny));
                proof {
                    assert(queue@ == qpre.push((nx, ny)));
                    assert forall|x: int, y: int|
                        visited.in_bounds(x, y) && #[trigger] visited.at(x, y)
                        implies fg(m, x, y) && reach(m, sx as int, sy as int, x, y)
                            && queue@.contains((x as usize, y as usize)) by {
                        if x == nx as int && y == ny as int {
                            assert(queue@[qpre.len() as int] == (nx, ny));
                        } else {
                            assert(vpre.at(x, y));
                            assert(qpre.contains((x as usize, y as usize)));
                        }
                    }
                }
            }
            proof {
                assert forall|a: int, b: int| vstart.in_bounds(a, b) && #[trigger] vstart.at(a, b)
                    implies visited.at(a, b) by {
                    if !(a == nx as int && b == ny as int) {
                        assert(visited.at(a, b) == vstart.at(a, b));
                    }
                }
                assert forall|k: int|
                    0 <= k < j + 1 && fg(m, (#[trigger] neigh@[k]).0 as int, neigh@[k].1 as int)
                    implies visited.at(neigh@[k].0 as int, neigh@[k].1 as int) by {
                    if k < j as int {
                        assert(vstart.at(neigh@[k].0 as int, neigh@[k].1 as int));
                    } else {
                        assert(neigh@[k] == (nx, ny));
                    }
                }
            }
            j = j + 1;
        }
        proof {
            lemma_count_true_bounds(visited.data@);
            assert forall|i: int, c: int, d: int|
                #![trigger queue@[i], visited.at(c, d)]
                0 <= i < head + 1 && 0 <= c < width && 0 <= d < height && fg(m, c, d)
                    && adj8(queue@[i].0 as int, queue@[i].1 as int, c, d)
                implies visited.at(c, d) by {
                if i == head as int {
                    assert(neigh@.contains((c as usize, d as usize)));
                    let k = choose|k: int|
                        0 <= k < neigh@.len() && neigh@[k] == (c as usize, d as usize);
                    assert(fg(m, neigh@[k].0 as int, neigh@[k].1 as int));
                }
            }
        }
        head = head + 1;
    }
    proof {
        assert forall|x: int, y: int| visited.in_bounds(x, y)
            implies (visited.at(x, y) <==> reach(m, sx as int, sy as int, x, y)) by {
            if reach(m, sx as int, sy as int, x, y) {
                let p = choose|p: Seq<(int, int)>|
                    is_path(m, p) && p[0] == (sx as int, sy as int) && p.last() == (x, y);
                assert forall|a: int, b: int, c: int, d: int|
                    #![trigger visited.at(a, b), visited.at(c, d)]
                    fg(m, a, b) && visited.at(a, b) && fg(m, c, d) && adj8(a, b, c, d)
                    implies visited.at(c, d) by {
                    assert(queue@.contains((a as usize, b as usize)));
                    let i = choose|i: int|
                        0 <= i < queue@.len() && queue@[i] == (a as usize, b as usize);
                    assert(queue@[i].0 as int == a && queue@[i].1 as int == b);
                }
                lemma_reach_closed(m, visited, p);
            }
        }
    }
    visited
}

} // verus!
