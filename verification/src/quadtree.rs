use vstd::prelude::*;

use crate::grid::Mask;

verus! {

/// An axis-aligned rectangle of pixels, half-open on the max edges:
/// it covers the pixels with `xmin <= x < xmax` and `ymin <= y < ymax`.
#[derive(Clone, Copy, Debug, PartialEq, Eq, Structural)]
pub struct BBox {
    pub xmin: u32,
    pub ymin: u32,
    pub xmax: u32,
    pub ymax: u32,
}

/// A quadtree over a mask region: either a single rectangle known to
/// contain foreground, or an ordered list of sub-trees.
pub enum QuadNode {
    Leaf(BBox),
    Branch(Vec<QuadNode>),
}

/// The mathematical shape of a quadtree, used by the contracts.
pub enum QTree {
    Leaf(BBox),
    Branch(Seq<QTree>),
}

pub open spec fn box_wf(b: BBox) -> bool {
    b.xmin <= b.xmax && b.ymin <= b.ymax
}

/// The number of pixels a box covers.
pub open spec fn box_area(b: BBox) -> int {
    (b.xmax - b.xmin) * (b.ymax - b.ymin)
}

pub open spec fn box_contains(b: BBox, x: int, y: int) -> bool {
    b.xmin <= x < b.xmax && b.ymin <= y < b.ymax
}

/// The mathematical shape of one node.
pub open spec fn view_node(n: QuadNode) -> QTree
    decreases n,
{
    match n {
        QuadNode::Leaf(b) => QTree::Leaf(b),
        QuadNode::Branch(cs) => QTree::Branch(view_seq(cs@)),
    }
}

/// The mathematical shape of a forest, elementwise.
pub open spec fn view_seq(s: Seq<QuadNode>) -> Seq<QTree>
    decreases s,
{
    if s.len() == 0 {
        Seq::empty()
    } else {
        seq![view_node(s[0])] + view_seq(s.drop_first())
    }
}

pub proof fn lemma_view_seq(s: Seq<QuadNode>)
    ensures
        view_seq(s).len() == s.len(),
        forall|i: int| 0 <= i < s.len() ==> view_seq(s)[i] == view_node(s[i]),
    decreases s,
{
    if s.len() > 0 {
        lemma_view_seq(s.drop_first());
        assert forall|i: int| 0 <= i < s.len() implies view_seq(s)[i] == view_node(s[i]) by {
            if i > 0 {
                assert(view_seq(s)[i] == view_seq(s.drop_first())[i - 1]);
                assert(s.drop_first()[i - 1] == s[i]);
            }
        }
    }
}

/// A structural measure used for termination of tree recursion.
pub open spec fn tree_size(t: QTree) -> nat
    decreases t,
{
    match t {
        QTree::Leaf(_) => 1,
        QTree::Branch(cs) => 1 + forest_size(cs),
    }
}

pub open spec fn forest_size(s: Seq<QTree>) -> nat
    decreases s,
{
    if s.len() == 0 {
        0
    } else {
        tree_size(s[0]) + forest_size(s.drop_first())
    }
}

/// Every member of a forest weighs no more than the whole forest.
pub proof fn lemma_forest_member_size(s: Seq<QTree>, i: int)
    requires
        0 <= i < s.len(),
    ensures
        tree_size(s[i]) <= forest_size(s),
    decreases s,
{
    if i > 0 {
        lemma_forest_member_size(s.drop_first(), i - 1);
        assert(s.drop_first()[i - 1] == s[i]);
    }
}

/// Every box in the tree is a well-formed rectangle.
pub open spec fn tree_wf(t: QTree) -> bool
    decreases t,
{
    match t {
        QTree::Leaf(b) => box_wf(b),
        QTree::Branch(cs) => forest_wf(cs),
    }
}

pub open spec fn forest_wf(s: Seq<QTree>) -> bool
    decreases s,
{
    if s.len() == 0 {
        true
    } else {
        tree_wf(s[0]) && forest_wf(s.drop_first())
    }
}

/// A forest is well-formed exactly when each of its trees is.
pub proof fn lemma_forest_wf(s: Seq<QTree>)
    ensures
        forest_wf(s) <==> (forall|i: int| 0 <= i < s.len() ==> #[trigger] tree_wf(s[i])),
    decreases s,
{
    if s.len() > 0 {
        lemma_forest_wf(s.drop_first());
        if forest_wf(s) {
            assert forall|i: int| 0 <= i < s.len() implies #[trigger] tree_wf(s[i]) by {
                if i > 0 {
                    assert(s.drop_first()[i - 1] == s[i]);
                    assert(tree_wf(s.drop_first()[i - 1]));
                }
            }
        }
        if forall|i: int| 0 <= i < s.len() ==> #[trigger] tree_wf(s[i]) {
            assert(tree_wf(s[0]));
            assert forall|i: int| 0 <= i < s.drop_first().len()
                implies #[trigger] tree_wf(s.drop_first()[i]) by {
                assert(s.drop_first()[i] == s[i + 1]);
                assert(tree_wf(s[i + 1]));
            }
            assert(forest_wf(s.drop_first()));
        }
    }
}

/// The bounding boxes of all leaves, in depth-first order.
pub open spec fn collect_spec(t: QTree) -> Seq<BBox>
    decreases t,
{
    match t {
        QTree::Leaf(b) => seq![b],
        QTree::Branch(cs) => collect_seq_spec(cs),
    }
}

pub open spec fn collect_seq_spec(s: Seq<QTree>) -> Seq<BBox>
    decreases s,
{
    if s.len() == 0 {
        Seq::empty()
    } else {
        collect_spec(s[0]) + collect_seq_spec(s.drop_first())
    }
}

pub proof fn lemma_collect_seq_push(s: Seq<QTree>, t: QTree)
    ensures
        collect_seq_spec(s.push(t)) == collect_seq_spec(s) + collect_spec(t),
    decreases s,
{
    if s.len() == 0 {
        assert(s.push(t).drop_first() =~= Seq::<QTree>::empty());
        assert(s.push(t)[0] == t);
        assert(collect_seq_spec(s.push(t)) == collect_spec(t) + collect_seq_spec(Seq::<QTree>::empty()));
        assert(collect_seq_spec(s.push(t)) =~= collect_spec(t));
        assert(collect_seq_spec(s) + collect_spec(t) =~= collect_spec(t));
    } else {
        assert(s.push(t).drop_first() =~= s.drop_first().push(t));
        lemma_collect_seq_push(s.drop_first(), t);
        assert(s.push(t)[0] == s[0]);
        assert(collect_seq_spec(s.push(t)) =~= collect_seq_spec(s) + collect_spec(t));
    }
}

pub open spec fn all_leaves(s: Seq<QTree>) -> bool {
    forall|i: int| 0 <= i < s.len() ==> s[i] is Leaf
}

pub open spec fn leaf_box(t: QTree) -> BBox {
    match t {
        QTree::Leaf(b) => b,
        QTree::Branch(_) => BBox { xmin: 0, ymin: 0, xmax: 0, ymax: 0 },
    }
}

pub open spec fn boxes_of(s: Seq<QTree>) -> Seq<BBox> {
    s.map_values(|t: QTree| leaf_box(t))
}

/// Total area of a list of boxes.
pub open spec fn sum_area(bs: Seq<BBox>) -> int
    decreases bs,
{
    if bs.len() == 0 {
        0
    } else {
        sum_area(bs.drop_last()) + box_area(bs.last())
    }
}

/// The smallest box containing both arguments.
pub open spec fn join_box(a: BBox, b: BBox) -> BBox {
    BBox {
        xmin: if a.xmin <= b.xmin { a.xmin } else { b.xmin },
        ymin: if a.ymin <= b.ymin { a.ymin } else { b.ymin },
        xmax: if a.xmax >= b.xmax { a.xmax } else { b.xmax },
        ymax: if a.ymax >= b.ymax { a.ymax } else { b.ymax },
    }
}

/// The smallest box containing every box of a non-empty list.
pub open spec fn bound_of(bs: Seq<BBox>) -> BBox
    decreases bs,
{
    if bs.len() <= 1 {
        if bs.len() == 1 {
            bs[0]
        } else {
            BBox { xmin: 0, ymin: 0, xmax: 0, ymax: 0 }
        }
    } else {
        join_box(bound_of(bs.drop_last()), bs.last())
    }
}

/// What `try_merge_leaves` answers: the bounding rectangle of a non-empty
/// all-leaf forest, provided the leaves tile it exactly (their areas sum
/// to the bounding rectangle's area).
pub open spec fn spec_try_merge(s: Seq<QTree>) -> Option<BBox> {
    if s.len() == 0 || !all_leaves(s) {
        None::<BBox>
    } else {
        let bb = bound_of(boxes_of(s));
        if sum_area(boxes_of(s)) == box_area(bb) {
            Some(bb)
        } else {
            None
        }
    }
}

impl QuadNode {
    /// Every box in this node is a well-formed rectangle.
    pub open spec fn wf(self) -> bool {
        tree_wf(view_node(self))
    }
}


/// Bottom-up merging: children are merged first, and a branch whose
/// merged children are leaves tiling a perfect rectangle collapses to
/// one leaf covering that rectangle.
pub open spec fn spec_merge(t: QTree) -> QTree
    decreases t,
{
    match t {
        QTree::Leaf(b) => QTree::Leaf(b),
        QTree::Branch(cs) => {
            let ms = spec_merge_seq(cs);
            match spec_try_merge(ms) {
                Some(bb) => QTree::Leaf(bb),
                None => QTree::Branch(ms),
            }
        }
    }
}

pub open spec fn spec_merge_seq(s: Seq<QTree>) -> Seq<QTree>
    decreases s,
{
    if s.len() == 0 {
        Seq::empty()
    } else {
        seq![spec_merge(s[0])] + spec_merge_seq(s.drop_first())
    }
}

pub proof fn lemma_merge_seq(s: Seq<QTree>)
    ensures
        spec_merge_seq(s).len() == s.len(),
        forall|i: int| 0 <= i < s.len() ==> spec_merge_seq(s)[i] == spec_merge(s[i]),
    decreases s,
{
    if s.len() > 0 {
        lemma_merge_seq(s.drop_first());
        assert forall|i: int| 0 <= i < s.len() implies spec_merge_seq(s)[i] == spec_merge(s[i]) by {
            if i > 0 {
                assert(spec_merge_seq(s)[i] == spec_merge_seq(s.drop_first())[i - 1]);
                assert(s.drop_first()[i - 1] == s[i]);
            }
        }
    }
}

/// The bounding box of a non-empty list of well-formed boxes is
/// well-formed and contains each of them.
pub proof fn lemma_bound_of(bs: Seq<BBox>)
    requires
        bs.len() > 0,
        forall|i: int| 0 <= i < bs.len() ==> box_wf(#[trigger] bs[i]),
    ensures
        box_wf(bound_of(bs)),
        forall|i: int| 0 <= i < bs.len() ==> {
            let bb = bound_of(bs);
            bb.xmin <= #[trigger] bs[i].xmin && bb.ymin <= bs[i].ymin
                && bs[i].xmax <= bb.xmax && bs[i].ymax <= bb.ymax
        },
    decreases bs,
{
    if bs.len() > 1 {
        lemma_bound_of(bs.drop_last());
        assert forall|i: int| 0 <= i < bs.len() - 1 implies bs.drop_last()[i] == bs[i] by {}
    }
}

/// Merging preserves the well-formedness of every box in the tree.
pub proof fn lemma_merge_wf(t: QTree)
    requires
        tree_wf(t),
    ensures
        tree_wf(spec_merge(t)),
    decreases tree_size(t),
{
    match t {
        QTree::Leaf(_) => {}
        QTree::Branch(cs) => {
            let ms = spec_merge_seq(cs);
            lemma_merge_seq(cs);
            lemma_forest_wf(cs);
            lemma_forest_wf(ms);
            assert forall|i: int| 0 <= i < ms.len() implies #[trigger] tree_wf(ms[i]) by {
                assert(tree_wf(cs[i]));
                lemma_forest_member_size(cs, i);
                lemma_merge_wf(cs[i]);
                assert(ms[i] == spec_merge(cs[i]));
            }
            match spec_try_merge(ms) {
                Some(bb) => {
                    assert(boxes_of(ms).len() == ms.len());
                    assert forall|i: int| 0 <= i < boxes_of(ms).len()
                        implies box_wf(#[trigger] boxes_of(ms)[i]) by {
                        assert(boxes_of(ms)[i] == leaf_box(ms[i]));
                        assert(ms[i] is Leaf);
                        assert(tree_wf(ms[i]));
                    }
                    lemma_bound_of(boxes_of(ms));
                    assert(box_wf(bb));
                    assert(spec_merge(t) == QTree::Leaf(bb));
                }
                None => {
                    assert(spec_merge(t) == QTree::Branch(ms));
                }
            }
        }
    }
}

/// Recursively merges a quadtree bottom-up, collapsing each branch whose
/// merged children are leaves that exactly tile a rectangle.
pub fn merge_quadnode(node: QuadNode) -> (r: QuadNode)
    requires
        node.wf(),
    ensures
        view_node(r) == spec_merge(view_node(node)),
        r.wf(),
    decreases tree_size(view_node(node)), 0nat,
{
    proof {
        lemma_merge_wf(view_node(node));
    }
    match node {
        QuadNode::Leaf(b) => QuadNode::Leaf(b),
        QuadNode::Branch(children) => {
            let ghost os = view_seq(children@);
            proof {
                lemma_view_seq(children@);
                lemma_merge_seq(os);
                lemma_forest_wf(os);
                assert forall|j: int| 0 <= j < children@.len()
                    implies #[trigger] tree_wf(view_node(children@[j])) by {
                    assert(os[j] == view_node(children@[j]));
                    assert(tree_wf(os[j]));
                }
            }
            let merged = merge_forest(children);
            proof {
                lemma_view_seq(merged@);
                assert(view_seq(merged@) =~= spec_merge_seq(os));
                assert forall|i: int|
                    0 <= i < merged@.len() && (#[trigger] view_node(merged@[i])) is Leaf
                    implies box_wf(leaf_box(view_node(merged@[i]))) by {
                    assert(tree_wf(view_node(merged@[i])));
                }
            }
            let bb = try_merge_leaves(&merged);
            match bb {
                Some(b) => QuadNode::Leaf(b),
                None => QuadNode::Branch(merged),
            }
        }
    }
}

/// Merges every tree of a forest, keeping the order.
fn merge_forest(nodes: Vec<QuadNode>) -> (r: Vec<QuadNode>)
    requires
        forall|j: int| 0 <= j < nodes@.len() ==> #[trigger] tree_wf(view_node(nodes@[j])),
    ensures
        r@.len() == nodes@.len(),
        forall|j: int| 0 <= j < r@.len()
            ==> view_node(#[trigger] r@[j]) == spec_merge(view_node(nodes@[j])),
        forall|j: int| 0 <= j < r@.len() ==> #[trigger] tree_wf(view_node(r@[j])),
    decreases forest_size(view_seq(nodes@)), 1nat,
{
    let ghost os = view_seq(nodes@);
    proof {
        lemma_view_seq(nodes@);
    }
    let mut rest = nodes;
    if rest.len() == 0 {
        return rest;
    }
    let c = rest.remove(0);
    let ghost rs = view_seq(rest@);
    proof {
        assert(rest@ =~= nodes@.drop_first());
        lemma_view_seq(rest@);
        assert(rs =~= os.drop_first());
        assert(tree_size(view_node(c)) <= forest_size(os)) by {
            lemma_forest_member_size(os, 0);
        }
        assert(forest_size(os) == tree_size(os[0]) + forest_size(os.drop_first()));
        lemma_merge_wf(view_node(c));
    }
    let m = merge_quadnode(c);
    let mut out = merge_forest(rest);
    out.insert(0, m);
    proof {
        assert forall|j: int| 0 <= j < out@.len()
            implies view_node(#[trigger] out@[j]) == spec_merge(view_node(nodes@[j])) by {
            if j > 0 {
                assert(out@[j] == out@.subrange(1, out@.len() as int)[j - 1]);
            }
        }
    }
    out
}

/// Appends the bounding boxes of all leaves of `node`, in depth-first
/// order, to `out`.
pub fn collect_leaves(node: &QuadNode, out: &mut Vec<BBox>)
    ensures
        final(out)@ == old(out)@ + collect_spec(view_node(*node)),
    decreases tree_size(view_node(*node)),
{
    match node {
        QuadNode::Leaf(b) => {
            out.push(*b);
        }
        QuadNode::Branch(children) => {
            let ghost s = view_seq(children@);
            proof {
                lemma_view_seq(children@);
            }
            let n = children.len();
            let mut i: usize = 0;
            while i < n
                invariant
                    n == children@.len(),
                    i <= n,
                    s == view_seq(children@),
                    s.len() == n,
                    forall|j: int| 0 <= j < n ==> s[j] == view_node(children@[j]),
                    out@ == old(out)@ + collect_seq_spec(s.take(i as int)),
                    *node == QuadNode::Branch(*children),
                decreases n - i,
            {
                proof {
                    assert(s.take(i as int).push(s[i as int]) =~= s.take(i + 1));
                    lemma_collect_seq_push(s.take(i as int), s[i as int]);
                    lemma_forest_member_size(s, i as int);
                    assert(tree_size(view_node(children@[i as int])) < tree_size(view_node(*node)));
                }
                collect_leaves(&children[i], out);
                i = i + 1;
            }
            proof {
                assert(s.take(n as int) =~= s);
            }
        }
    }
}

/// If every child is a leaf and the children exactly tile their common
/// bounding rectangle (no gap, no overlap by area), returns that
/// rectangle; otherwise `None`.
pub fn try_merge_leaves(children: &Vec<QuadNode>) -> (r: Option<BBox>)
    requires
        forall|i: int| 0 <= i < children@.len() ==> (#[trigger] view_node(children@[i])) is Leaf
            ==> box_wf(leaf_box(view_node(children@[i]))),
    ensures
        r == spec_try_merge(view_seq(children@)),
{
    proof {
        lemma_view_seq(children@);
    }
    let ghost s = view_seq(children@);
    let n = children.len();
    if n == 0 {
        return None;
    }
    let mut xmin: u32 = u32::MAX;
    let mut ymin: u32 = u32::MAX;
    let mut xmax: u32 = 0;
    let mut ymax: u32 = 0;
    let mut total: u128 = 0;
    let mut i: usize = 0;
    while i < n
        invariant
            n == children@.len(),
            n >= 1,
            i <= n,
            s == view_seq(children@),
            s.len() == n,
            forall|j: int| 0 <= j < n ==> s[j] == view_node(children@[j]),
            forall|j: int| 0 <= j < n ==> s[j] is Leaf ==> box_wf(leaf_box(s[j])),
            all_leaves(s.take(i as int)),
            i > 0 ==> (BBox { xmin, ymin, xmax, ymax }) == bound_of(boxes_of(s.take(i as int))),
            i > 0 ==> xmin <= xmax && ymin <= ymax,
            i == 0 ==> xmin == u32::MAX && ymin == u32::MAX && xmax == 0 && ymax == 0,
            total == sum_area(boxes_of(s.take(i as int))),
            total <= i * 0xffff_ffff_ffff_ffff,
        decreases n - i,
    {
        let ci = &children[i];
        proof {
            assert(*ci == children@[i as int]);
        }
        let b = match ci {
            QuadNode::Leaf(bb) => *bb,
            QuadNode::Branch(_) => {
                proof {
                    assert(s[i as int] == view_node(children@[i as int]));
                    assert(!(s[i as int] is Leaf));
                    assert(!all_leaves(s));
                }
                return None;
            }
        };
        proof {
            assert(view_node(children@[i as int]) == QTree::Leaf(b));
            assert(box_wf(b));
        }
        let w = (b.xmax - b.xmin) as u64;
        let h = (b.ymax - b.ymin) as u64;
        proof {
            assert(boxes_of(s.take(i + 1)) =~= boxes_of(s.take(i as int)).push(b));
            assert(boxes_of(s.take(i + 1)).drop_last() =~= boxes_of(s.take(i as int)));
            assert((w as int) * (h as int) <= 0xffff_ffff_ffff_ffff) by (nonlinear_arith)
                requires w <= 0xffff_ffff && h <= 0xffff_ffff;
            assert((i + 1) * 0xffff_ffff_ffff_ffff == i * 0xffff_ffff_ffff_ffff + 0xffff_ffff_ffff_ffff);
            assert((i + 1) * 0xffff_ffff_ffff_ffff <= n * 0xffff_ffff_ffff_ffff) by (nonlinear_arith)
                requires 0 <= i < n;
            assert(n * 0xffff_ffff_ffff_ffff <= 0xffff_ffff_ffff_ffff * 0xffff_ffff_ffff_ffff)
                by (nonlinear_arith)
                requires 0 <= n <= 0xffff_ffff_ffff_ffff;
        }
        let area = (w as u128) * (h as u128);
        if i == 0 {
            xmin = b.xmin;
            ymin = b.ymin;
            xmax = b.xmax;
            ymax = b.ymax;
            proof {
                assert(boxes_of(s.take(1)) =~= seq![b]);
            }
        } else {
            xmin = if b.xmin < xmin { b.xmin } else { xmin };
            ymin = if b.ymin < ymin { b.ymin } else { ymin };
            xmax = if b.xmax > xmax { b.xmax } else { xmax };
            ymax = if b.ymax > ymax { b.ymax } else { ymax };
        }
        total = total + area;
        i = i + 1;
    }
    proof {
        assert(s.take(n as int) =~= s);
    }
    // The children are all leaves; merge exactly when they tile the
    // bounding rectangle.
    let bw = (xmax - xmin) as u64;
    let bh = (ymax - ymin) as u64;
    proof {
        assert((bw as int) * (bh as int) <= 0xffff_ffff_ffff_ffff) by (nonlinear_arith)
            requires bw <= 0xffff_ffff && bh <= 0xffff_ffff;
    }
    let bound_area = (bw as u128) * (bh as u128);
    if total == bound_area {
        Some(BBox { xmin, ymin, xmax, ymax })
    } else {
        None
    }
}


/// Some pixel of the region is foreground in the mask.
pub open spec fn region_has_fg(m: Mask, b: BBox) -> bool {
    exists|x: int, y: int| box_contains(b, x, y) && m.in_bounds(x, y) && m.at(x, y)
}

pub open spec fn opt_seq(o: Option<QTree>) -> Seq<QTree> {
    match o {
        Option::None => Seq::empty(),
        Option::Some(t) => seq![t],
    }
}

pub open spec fn opt_view(r: Option<QuadNode>) -> Option<QTree> {
    match r {
        Option::None => Option::None,
        Option::Some(n) => Option::Some(view_node(n)),
    }
}

/// Recursive quartering of a region: a region without foreground is
/// pruned; a region at the depth or size limit becomes a leaf; otherwise
/// the region splits at the midpoint of each axis (rounding down) and
/// the surviving quadrants are kept, a single survivor being bubbled up
/// in place of a branch.
pub open spec fn spec_split(m: Mask, b: BBox, max_depth: u32, min_size: u32) -> Option<QTree>
    decreases max_depth,
{
    if !region_has_fg(m, b) {
        Option::None
    } else if max_depth == 0 || b.xmax - b.xmin <= min_size || b.ymax - b.ymin <= min_size {
        Option::Some(QTree::Leaf(b))
    } else {
        let midx = (b.xmin + (b.xmax - b.xmin) / 2) as u32;
        let midy = (b.ymin + (b.ymax - b.ymin) / 2) as u32;
        let d = (max_depth - 1) as u32;
        let kept = opt_seq(
            spec_split(m, BBox { xmin: b.xmin, ymin: b.ymin, xmax: midx, ymax: midy }, d, min_size),
        ) + opt_seq(
            spec_split(m, BBox { xmin: midx, ymin: b.ymin, xmax: b.xmax, ymax: midy }, d, min_size),
        ) + opt_seq(
            spec_split(m, BBox { xmin: b.xmin, ymin: midy, xmax: midx, ymax: b.ymax }, d, min_size),
        ) + opt_seq(
            spec_split(m, BBox { xmin: midx, ymin: midy, xmax: b.xmax, ymax: b.ymax }, d, min_size),
        );
        if kept.len() == 0 {
            Option::None
        } else if kept.len() == 1 {
            Option::Some(kept[0])
        } else {
            Option::Some(QTree::Branch(kept))
        }
    }
}

/// Scans a region of the mask for any foreground pixel.
pub fn region_contains_foreground(mask: &Mask, b: BBox) -> (r: bool)
    requires
        mask.wf(),
        box_wf(b),
        b.xmax as int <= mask.width as int,
        b.ymax as int <= mask.height as int,
    ensures
        r == region_has_fg(*mask, b),
{
    let mut y = b.ymin;
    while y < b.ymax
        invariant
            mask.wf(),
            box_wf(b),
            b.xmax as int <= mask.width as int,
            b.ymax as int <= mask.height as int,
            b.ymin <= y <= b.ymax,
            forall|xx: int, yy: int|
                box_contains(b, xx, yy) && yy < y ==> !mask.at(xx, yy),
        decreases b.ymax as int - y as int,
    {
        let mut x = b.xmin;
        while x < b.xmax
            invariant
                mask.wf(),
                box_wf(b),
                b.xmax as int <= mask.width as int,
                b.ymax as int <= mask.height as int,
                b.ymin <= y < b.ymax,
                b.xmin <= x <= b.xmax,
                forall|xx: int, yy: int|
                    box_contains(b, xx, yy) && yy < y ==> !mask.at(xx, yy),
                forall|xx: int| b.xmin <= xx < x ==> !mask.at(xx, y as int),
            decreases b.xmax as int - x as int,
        {
            if mask.get(x as usize, y as usize) {
                return true;
            }
            x = x + 1;
        }
        y = y + 1;
    }
    false
}

/// Recursively quarters the region guided by foreground presence, as
/// `spec_split` describes.
pub fn split_region(mask: &Mask, b: BBox, max_depth: u32, min_size: u32) -> (r: Option<QuadNode>)
    requires
        mask.wf(),
        box_wf(b),
        b.xmax as int <= mask.width as int,
        b.ymax as int <= mask.height as int,
    ensures
        opt_view(r) == spec_split(*mask, b, max_depth, min_size),
        r matches Some(n) ==> n.wf(),
    decreases max_depth,
{
    if !region_contains_foreground(mask, b) {
        return None;
    }
    let w = b.xmax - b.xmin;
    let h = b.ymax - b.ymin;
    if max_depth == 0 || w <= min_size || h <= min_size {
        return Some(QuadNode::Leaf(b));
    }
    let midx = b.xmin + w / 2;
    let midy = b.ymin + h / 2;
    let q1 = BBox { xmin: b.xmin, ymin: b.ymin, xmax: midx, ymax: midy };
    let q2 = BBox { xmin: midx, ymin: b.ymin, xmax: b.xmax, ymax: midy };
    let q3 = BBox { xmin: b.xmin, ymin: midy, xmax: midx, ymax: b.ymax };
    let q4 = BBox { xmin: midx, ymin: midy, xmax: b.xmax, ymax: b.ymax };
    let d = max_depth - 1;
    let c1 = split_region(mask, q1, d, min_size);
    let c2 = split_region(mask, q2, d, min_size);
    let c3 = split_region(mask, q3, d, min_size);
    let c4 = split_region(mask, q4, d, min_size);
    let ghost s1 = spec_split(*mask, q1, d, min_size);
    let ghost s2 = spec_split(*mask, q2, d, min_size);
    let ghost s3 = spec_split(*mask, q3, d, min_size);
    let ghost s4 = spec_split(*mask, q4, d, min_size);
    let ghost kept = opt_seq(s1) + opt_seq(s2) + opt_seq(s3) + opt_seq(s4);
    let mut children: Vec<QuadNode> = Vec::new();
    if let Some(n) = c1 {
        children.push(n);
    }
    proof {
        lemma_view_seq(children@);
        assert(view_seq(children@) =~= opt_seq(s1));
    }
    if let Some(n) = c2 {
        children.push(n);
    }
    proof {
        lemma_view_seq(children@);
        assert(view_seq(children@) =~= opt_seq(s1) + opt_seq(s2));
    }
    if let Some(n) = c3 {
        children.push(n);
    }
    proof {
        lemma_view_seq(children@);
        assert(view_seq(children@) =~= opt_seq(s1) + opt_seq(s2) + opt_seq(s3));
    }
    if let Some(n) = c4 {
        children.push(n);
    }
    proof {
        lemma_view_seq(children@);
        assert(view_seq(children@) =~= kept);
        lemma_forest_wf(view_seq(children@));
    }
    if children.len() == 0 {
        None
    } else if children.len() == 1 {
        let n = children.remove(0);
        proof {
            assert(view_node(n) == kept[0]);
        }
        Some(n)
    } else {
        Some(QuadNode::Branch(children))
    }
}


/// `b` lies inside `outer` (as coordinate ranges).
pub open spec fn box_in(b: BBox, outer: BBox) -> bool {
    outer.xmin <= b.xmin && b.xmax <= outer.xmax && outer.ymin <= b.ymin && b.ymax <= outer.ymax
}

/// Every box of a list lies inside `outer`.
pub open spec fn boxes_in(bs: Seq<BBox>, outer: BBox) -> bool {
    forall|i: int| 0 <= i < bs.len() ==> box_in(#[trigger] bs[i], outer)
}

/// Every box of a list is well-formed.
pub open spec fn boxes_wf(bs: Seq<BBox>) -> bool {
    forall|i: int| 0 <= i < bs.len() ==> box_wf(#[trigger] bs[i])
}

/// The leaf boxes of a well-formed tree are well-formed.
pub proof fn lemma_collect_wf(t: QTree)
    requires
        tree_wf(t),
    ensures
        boxes_wf(collect_spec(t)),
    decreases tree_size(t), 0nat,
{
    match t {
        QTree::Leaf(_) => {}
        QTree::Branch(cs) => {
            lemma_forest_wf(cs);
            lemma_collect_seq_wf(cs);
        }
    }
}

pub proof fn lemma_collect_seq_wf(s: Seq<QTree>)
    requires
        forall|i: int| 0 <= i < s.len() ==> #[trigger] tree_wf(s[i]),
    ensures
        boxes_wf(collect_seq_spec(s)),
    decreases forest_size(s), 1nat,
{
    if s.len() > 0 {
        lemma_forest_member_size(s, 0);
        assert(forest_size(s) == tree_size(s[0]) + forest_size(s.drop_first()));
        assert(tree_size(s[0]) >= 1) by {
            match s[0] {
                QTree::Leaf(_) => {}
                QTree::Branch(_) => {}
            }
        }
        lemma_collect_wf(s[0]);
        assert forall|i: int| 0 <= i < s.drop_first().len()
            implies #[trigger] tree_wf(s.drop_first()[i]) by {
            assert(s.drop_first()[i] == s[i + 1]);
            assert(tree_wf(s[i + 1]));
        }
        lemma_collect_seq_wf(s.drop_first());
        let c0 = collect_spec(s[0]);
        let cr = collect_seq_spec(s.drop_first());
        assert forall|i: int| 0 <= i < collect_seq_spec(s).len()
            implies box_wf(#[trigger] collect_seq_spec(s)[i]) by {
            if i < c0.len() {
                assert(collect_seq_spec(s)[i] == c0[i]);
            } else {
                assert(collect_seq_spec(s)[i] == cr[i - c0.len()]);
            }
        }
    }
}

/// The leaf boxes of a tree produced by splitting a region stay inside
/// that region.
pub proof fn lemma_split_boxes_in(m: Mask, b: BBox, max_depth: u32, min_size: u32, outer: BBox)
    requires
        spec_split(m, b, max_depth, min_size) is Some,
        box_in(b, outer),
        box_wf(b),
    ensures
        boxes_in(collect_spec(spec_split(m, b, max_depth, min_size)->Some_0), outer),
        tree_wf(spec_split(m, b, max_depth, min_size)->Some_0),
    decreases max_depth,
{
    let t = spec_split(m, b, max_depth, min_size)->Some_0;
    if max_depth == 0 || b.xmax - b.xmin <= min_size || b.ymax - b.ymin <= min_size {
        assert(t == QTree::Leaf(b));
    } else {
        let midx = (b.xmin + (b.xmax - b.xmin) / 2) as u32;
        let midy = (b.ymin + (b.ymax - b.ymin) / 2) as u32;
        let d = (max_depth - 1) as u32;
        let q1 = BBox { xmin: b.xmin, ymin: b.ymin, xmax: midx, ymax: midy };
        let q2 = BBox { xmin: midx, ymin: b.ymin, xmax: b.xmax, ymax: midy };
        let q3 = BBox { xmin: b.xmin, ymin: midy, xmax: midx, ymax: b.ymax };
        let q4 = BBox { xmin: midx, ymin: midy, xmax: b.xmax, ymax: b.ymax };
        let s1 = spec_split(m, q1, d, min_size);
        let s2 = spec_split(m, q2, d, min_size);
        let s3 = spec_split(m, q3, d, min_size);
        let s4 = spec_split(m, q4, d, min_size);
        let kept = opt_seq(s1) + opt_seq(s2) + opt_seq(s3) + opt_seq(s4);
        if s1 is Some {
            lemma_split_boxes_in(m, q1, d, min_size, outer);
        }
        if s2 is Some {
            lemma_split_boxes_in(m, q2, d, min_size, outer);
        }
        if s3 is Some {
            lemma_split_boxes_in(m, q3, d, min_size, outer);
        }
        if s4 is Some {
            lemma_split_boxes_in(m, q4, d, min_size, outer);
        }
        assert forall|i: int| 0 <= i < kept.len() implies boxes_in(
            collect_spec(#[trigger] kept[i]), outer) && tree_wf(kept[i]) by {
            assert(opt_seq(s1).contains(kept[i]) || opt_seq(s2).contains(kept[i])
                || opt_seq(s3).contains(kept[i]) || opt_seq(s4).contains(kept[i]));
        }
        if kept.len() == 1 {
            assert(t == kept[0]);
        } else {
            assert(t == QTree::Branch(kept));
            lemma_forest_wf(kept);
            lemma_collect_boxes_in_seq(kept, outer);
        }
    }
}

/// Leaf boxes of a forest whose trees each keep their boxes in `outer`.
pub proof fn lemma_collect_boxes_in_seq(s: Seq<QTree>, outer: BBox)
    requires
        forall|i: int| 0 <= i < s.len() ==> boxes_in(collect_spec(#[trigger] s[i]), outer),
    ensures
        boxes_in(collect_seq_spec(s), outer),
    decreases s,
{
    if s.len() > 0 {
        assert forall|i: int| 0 <= i < s.drop_first().len()
            implies boxes_in(collect_spec(#[trigger] s.drop_first()[i]), outer) by {
            assert(s.drop_first()[i] == s[i + 1]);
        }
        lemma_collect_boxes_in_seq(s.drop_first(), outer);
        let c0 = collect_spec(s[0]);
        let cr = collect_seq_spec(s.drop_first());
        assert forall|i: int| 0 <= i < collect_seq_spec(s).len()
            implies box_in(#[trigger] collect_seq_spec(s)[i], outer) by {
            if i < c0.len() {
                assert(collect_seq_spec(s)[i] == c0[i]);
                assert(box_in(c0[i], outer));
            } else {
                assert(collect_seq_spec(s)[i] == cr[i - c0.len()]);
                assert(box_in(cr[i - c0.len()], outer));
            }
        }
    }
}

/// When all trees of a forest are leaves, their collected boxes are
/// exactly their boxes.
pub proof fn lemma_collect_all_leaves(s: Seq<QTree>)
    requires
        all_leaves(s),
    ensures
        collect_seq_spec(s) =~= boxes_of(s),
    decreases s,
{
    if s.len() > 0 {
        assert forall|i: int| 0 <= i < s.drop_first().len()
            implies #[trigger] s.drop_first()[i] is Leaf by {
            assert(s.drop_first()[i] == s[i + 1]);
            assert(s[i + 1] is Leaf);
        }
        lemma_collect_all_leaves(s.drop_first());
        assert(s[0] is Leaf);
        assert(collect_spec(s[0]) =~= seq![leaf_box(s[0])]);
        assert(boxes_of(s.drop_first()) =~= boxes_of(s).drop_first());
    }
}

/// Merging never moves a leaf box outside a region that contained all
/// the tree's boxes.
pub proof fn lemma_merge_boxes_in(t: QTree, outer: BBox)
    requires
        boxes_in(collect_spec(t), outer),
    ensures
        boxes_in(collect_spec(spec_merge(t)), outer),
    decreases tree_size(t),
{
    match t {
        QTree::Leaf(_) => {}
        QTree::Branch(cs) => {
            let ms = spec_merge_seq(cs);
            lemma_merge_seq(cs);
            assert forall|i: int| 0 <= i < ms.len()
                implies boxes_in(collect_spec(#[trigger] ms[i]), outer) by {
                assert(boxes_in(collect_spec(cs[i]), outer)) by {
                    lemma_collect_member_in(cs, i, outer);
                }
                lemma_forest_member_size(cs, i);
                lemma_merge_boxes_in(cs[i], outer);
                assert(ms[i] == spec_merge(cs[i]));
            }
            lemma_collect_boxes_in_seq(ms, outer);
            match spec_try_merge(ms) {
                Some(bb) => {
                    assert(ms.len() > 0 && all_leaves(ms));
                    lemma_collect_all_leaves(ms);
                    assert(forall|i: int| 0 <= i < boxes_of(ms).len()
                        ==> box_in(#[trigger] boxes_of(ms)[i], outer));
                    lemma_bound_in(boxes_of(ms), outer);
                    assert(collect_spec(spec_merge(t)) =~= seq![bb]);
                }
                None => {}
            }
        }
    }
}

/// A member tree's boxes all appear in the forest's collection.
pub proof fn lemma_collect_member_in(s: Seq<QTree>, k: int, outer: BBox)
    requires
        0 <= k < s.len(),
        boxes_in(collect_seq_spec(s), outer),
    ensures
        boxes_in(collect_spec(s[k]), outer),
    decreases s,
{
    let c0 = collect_spec(s[0]);
    let cr = collect_seq_spec(s.drop_first());
    if k == 0 {
        assert forall|i: int| 0 <= i < c0.len() implies box_in(#[trigger] c0[i], outer) by {
            assert(collect_seq_spec(s)[i] == c0[i]);
            assert(box_in(collect_seq_spec(s)[i], outer));
        }
    } else {
        assert forall|i: int| 0 <= i < cr.len() implies box_in(#[trigger] cr[i], outer) by {
            assert(collect_seq_spec(s)[c0.len() + i] == cr[i]);
            assert(box_in(collect_seq_spec(s)[c0.len() + i], outer));
        }
        lemma_collect_member_in(s.drop_first(), k - 1, outer);
        assert(s.drop_first()[k - 1] == s[k]);
    }
}

/// The bounding box of boxes inside `outer` is inside `outer`.
pub proof fn lemma_bound_in(bs: Seq<BBox>, outer: BBox)
    requires
        bs.len() > 0,
        forall|i: int| 0 <= i < bs.len() ==> box_in(#[trigger] bs[i], outer),
    ensures
        box_in(bound_of(bs), outer),
    decreases bs,
{
    if bs.len() > 1 {
        assert forall|i: int| 0 <= i < bs.drop_last().len()
            implies box_in(#[trigger] bs.drop_last()[i], outer) by {
            assert(bs.drop_last()[i] == bs[i]);
        }
        lemma_bound_in(bs.drop_last(), outer);
    }
}

/// Evaluates `bound_of` and `sum_area` on a two-element list.
proof fn lemma_pair_eval(a: BBox, b: BBox)
    ensures
        bound_of(seq![a, b]) == join_box(a, b),
        sum_area(seq![a, b]) == box_area(a) + box_area(b),
{
    let s = seq![a, b];
    assert(s.drop_last() =~= seq![a]);
    assert(s.last() == b);
    assert(seq![a].drop_last() =~= Seq::<BBox>::empty());
    assert(seq![a].last() == a);
    assert(sum_area(Seq::<BBox>::empty()) == 0);
    assert(bound_of(seq![a]) == a);
    assert(sum_area(seq![a]) == box_area(a));
    assert(bound_of(s) == join_box(bound_of(seq![a]), b));
    assert(sum_area(s) == sum_area(seq![a]) + box_area(b));
}

/// Evaluates `bound_of` and `sum_area` on a four-element list.
proof fn lemma_quad_eval(a: BBox, b: BBox, c: BBox, d: BBox)
    ensures
        bound_of(seq![a, b, c, d]) == join_box(join_box(join_box(a, b), c), d),
        sum_area(seq![a, b, c, d]) == box_area(a) + box_area(b) + box_area(c) + box_area(d),
{
    let s = seq![a, b, c, d];
    assert(s.drop_last() =~= seq![a, b, c]);
    assert(s.last() == d);
    assert(seq![a, b, c].drop_last() =~= seq![a, b]);
    assert(seq![a, b, c].last() == c);
    lemma_pair_eval(a, b);
    assert(bound_of(seq![a, b, c]) == join_box(bound_of(seq![a, b]), c));
    assert(sum_area(seq![a, b, c]) == sum_area(seq![a, b]) + box_area(c));
    assert(bound_of(s) == join_box(bound_of(seq![a, b, c]), d));
    assert(sum_area(s) == sum_area(seq![a, b, c]) + box_area(d));
}

/// Splitting a region that the mask fills solidly and merging the
/// result collapses to one leaf covering exactly that region: the
/// quadrants of a solid rectangle are solid, tile it perfectly, and
/// merge back.
#[verifier::rlimit(80)]
pub proof fn lemma_split_merge_solid(m: Mask, b: BBox, max_depth: u32, min_size: u32)
    requires
        m.wf(),
        box_wf(b),
        b.xmax as int <= m.width as int,
        b.ymax as int <= m.height as int,
        box_area(b) > 0,
        forall|x: int, y: int| box_contains(b, x, y) ==> m.at(x, y),
    ensures
        spec_split(m, b, max_depth, min_size) is Some,
        spec_merge(spec_split(m, b, max_depth, min_size)->Some_0) == QTree::Leaf(b),
    decreases max_depth,
{
    let w = b.xmax - b.xmin;
    let h = b.ymax - b.ymin;
    assert(w >= 1 && h >= 1) by (nonlinear_arith)
        requires
            w == b.xmax - b.xmin,
            h == b.ymax - b.ymin,
            w >= 0,
            h >= 0,
            w * h > 0,
    ;
    assert(region_has_fg(m, b)) by {
        assert(box_contains(b, b.xmin as int, b.ymin as int));
        assert(m.at(b.xmin as int, b.ymin as int));
        assert(m.in_bounds(b.xmin as int, b.ymin as int));
    }
    if max_depth == 0 || b.xmax - b.xmin <= min_size || b.ymax - b.ymin <= min_size {
        assert(spec_split(m, b, max_depth, min_size) == Option::Some(QTree::Leaf(b)));
    } else {
        let midx = (b.xmin + (b.xmax - b.xmin) / 2) as u32;
        let midy = (b.ymin + (b.ymax - b.ymin) / 2) as u32;
        let d = (max_depth - 1) as u32;
        let q1 = BBox { xmin: b.xmin, ymin: b.ymin, xmax: midx, ymax: midy };
        let q2 = BBox { xmin: midx, ymin: b.ymin, xmax: b.xmax, ymax: midy };
        let q3 = BBox { xmin: b.xmin, ymin: midy, xmax: midx, ymax: b.ymax };
        let q4 = BBox { xmin: midx, ymin: midy, xmax: b.xmax, ymax: b.ymax };
        let s1 = spec_split(m, q1, d, min_size);
        let s2 = spec_split(m, q2, d, min_size);
        let s3 = spec_split(m, q3, d, min_size);
        let s4 = spec_split(m, q4, d, min_size);
        let kept = opt_seq(s1) + opt_seq(s2) + opt_seq(s3) + opt_seq(s4);
        assert(b.xmin <= midx && midx < b.xmax && b.ymin <= midy && midy < b.ymax);
        let wide = midx > b.xmin;
        let tall = midy > b.ymin;
        assert(box_area(q2) == (b.xmax - midx) * (midy - b.ymin));
        assert(box_area(q4) == (b.xmax - midx) * (b.ymax - midy));
        if tall {
            assert(box_area(q2) > 0) by (nonlinear_arith)
                requires midx < b.xmax && b.ymin < midy
                    && box_area(q2) == (b.xmax - midx) * (midy - b.ymin);
            lemma_split_merge_solid(m, q2, d, min_size);
        } else {
            assert(!region_has_fg(m, q2));
            assert(s2 is None);
        }
        assert(box_area(q4) > 0) by (nonlinear_arith)
            requires midx < b.xmax && midy < b.ymax
                && box_area(q4) == (b.xmax - midx) * (b.ymax - midy);
        lemma_split_merge_solid(m, q4, d, min_size);
        if wide && tall {
            assert(box_area(q1) > 0) by (nonlinear_arith)
                requires b.xmin < midx && b.ymin < midy
                    && box_area(q1) == (midx - b.xmin) * (midy - b.ymin);
            lemma_split_merge_solid(m, q1, d, min_size);
        } else {
            assert(!region_has_fg(m, q1));
            assert(s1 is None);
        }
        if wide {
            assert(box_area(q3) > 0) by (nonlinear_arith)
                requires b.xmin < midx && midy < b.ymax
                    && box_area(q3) == (midx - b.xmin) * (b.ymax - midy);
            lemma_split_merge_solid(m, q3, d, min_size);
        } else {
            assert(!region_has_fg(m, q3));
            assert(s3 is None);
        }
        let area_sum_ok: bool = true;
        if wide && tall {
            let t1 = s1->Some_0;
            let t2 = s2->Some_0;
            let t3 = s3->Some_0;
            let t4 = s4->Some_0;
            assert(kept =~= seq![t1, t2, t3, t4]);
            assert(spec_split(m, b, max_depth, min_size) == Option::Some(QTree::Branch(kept)));
            let ms = spec_merge_seq(kept);
            lemma_merge_seq(kept);
            assert(ms =~= seq![QTree::Leaf(q1), QTree::Leaf(q2), QTree::Leaf(q3),
                QTree::Leaf(q4)]);
            assert(all_leaves(ms));
            assert(boxes_of(ms) =~= seq![q1, q2, q3, q4]);
            lemma_quad_eval(q1, q2, q3, q4);
            assert(bound_of(boxes_of(ms)) == b);
            assert(sum_area(boxes_of(ms)) == box_area(b)) by (nonlinear_arith)
                requires
                    sum_area(boxes_of(ms)) == (midx - b.xmin) * (midy - b.ymin)
                        + (b.xmax - midx) * (midy - b.ymin)
                        + (midx - b.xmin) * (b.ymax - midy)
                        + (b.xmax - midx) * (b.ymax - midy),
                    box_area(b) == (b.xmax - b.xmin) * (b.ymax - b.ymin),
                    b.xmin <= midx <= b.xmax,
                    b.ymin <= midy <= b.ymax,
            ;
            assert(spec_try_merge(ms) == Option::Some(b));
            assert(spec_merge(QTree::Branch(kept)) == QTree::Leaf(b));
        } else if !wide && tall {
            let t2 = s2->Some_0;
            let t4 = s4->Some_0;
            assert(kept =~= seq![t2, t4]);
            assert(spec_split(m, b, max_depth, min_size) == Option::Some(QTree::Branch(kept)));
            let ms = spec_merge_seq(kept);
            lemma_merge_seq(kept);
            assert(ms =~= seq![QTree::Leaf(q2), QTree::Leaf(q4)]);
            assert(all_leaves(ms));
            assert(boxes_of(ms) =~= seq![q2, q4]);
            lemma_pair_eval(q2, q4);
            assert(bound_of(boxes_of(ms)) == b);
            assert(sum_area(boxes_of(ms)) == box_area(b)) by (nonlinear_arith)
                requires
                    sum_area(boxes_of(ms)) == (b.xmax - midx) * (midy - b.ymin)
                        + (b.xmax - midx) * (b.ymax - midy),
                    box_area(b) == (b.xmax - b.xmin) * (b.ymax - b.ymin),
                    midx == b.xmin,
                    b.ymin <= midy <= b.ymax,
            ;
            assert(spec_try_merge(ms) == Option::Some(b));
            assert(spec_merge(QTree::Branch(kept)) == QTree::Leaf(b));
        } else if wide && !tall {
            let t3 = s3->Some_0;
            let t4 = s4->Some_0;
            assert(kept =~= seq![t3, t4]);
            assert(spec_split(m, b, max_depth, min_size) == Option::Some(QTree::Branch(kept)));
            let ms = spec_merge_seq(kept);
            lemma_merge_seq(kept);
            assert(ms =~= seq![QTree::Leaf(q3), QTree::Leaf(q4)]);
            assert(all_leaves(ms));
            assert(boxes_of(ms) =~= seq![q3, q4]);
            lemma_pair_eval(q3, q4);
            assert(bound_of(boxes_of(ms)) == b);
            assert(sum_area(boxes_of(ms)) == box_area(b)) by (nonlinear_arith)
                requires
                    sum_area(boxes_of(ms)) == (midx - b.xmin) * (b.ymax - midy)
                        + (b.xmax - midx) * (b.ymax - midy),
                    box_area(b) == (b.xmax - b.xmin) * (b.ymax - b.ymin),
                    midy == b.ymin,
                    b.xmin <= midx <= b.xmax,
            ;
            assert(spec_try_merge(ms) == Option::Some(b));
            assert(spec_merge(QTree::Branch(kept)) == QTree::Leaf(b));
        } else {
            // Both degenerate: the only surviving quadrant is the whole
            // region, bubbled up in place of a branch.
            let t4 = s4->Some_0;
            assert(q4 == b);
            assert(kept =~= seq![t4]);
            assert(spec_split(m, b, max_depth, min_size) == Option::Some(kept[0]));
            assert(spec_merge(t4) == QTree::Leaf(b));
        }
    }
}

/// Some box of the list covers the pixel.
pub open spec fn covered_by(bs: Seq<BBox>, x: int, y: int) -> bool {
    exists|i: int| 0 <= i < bs.len() && box_contains(#[trigger] bs[i], x, y)
}

/// A pixel covered inside one member of a forest is covered by the
/// forest's collected boxes.
pub proof fn lemma_collect_member_covers(s: Seq<QTree>, k: int, x: int, y: int)
    requires
        0 <= k < s.len(),
        covered_by(collect_spec(s[k]), x, y),
    ensures
        covered_by(collect_seq_spec(s), x, y),
    decreases s,
{
    let c0 = collect_spec(s[0]);
    let cr = collect_seq_spec(s.drop_first());
    if k == 0 {
        let i = choose|i: int| 0 <= i < c0.len() && box_contains(#[trigger] c0[i], x, y);
        assert(collect_seq_spec(s)[i] == c0[i]);
        assert(box_contains(collect_seq_spec(s)[i], x, y));
    } else {
        assert(s.drop_first()[k - 1] == s[k]);
        lemma_collect_member_covers(s.drop_first(), k - 1, x, y);
        let i = choose|i: int| 0 <= i < cr.len() && box_contains(#[trigger] cr[i], x, y);
        assert(collect_seq_spec(s)[c0.len() + i] == cr[i]);
        assert(box_contains(collect_seq_spec(s)[c0.len() + i], x, y));
    }
}

/// A foreground pixel of the region is always covered by the leaves the
/// split produces: pruning only discards empty quadrants.
pub proof fn lemma_split_covers(m: Mask, b: BBox, max_depth: u32, min_size: u32, x: int, y: int)
    requires
        box_contains(b, x, y),
        m.in_bounds(x, y),
        m.at(x, y),
    ensures
        spec_split(m, b, max_depth, min_size) is Some,
        covered_by(collect_spec(spec_split(m, b, max_depth, min_size)->Some_0), x, y),
    decreases max_depth,
{
    assert(region_has_fg(m, b));
    if max_depth == 0 || b.xmax - b.xmin <= min_size || b.ymax - b.ymin <= min_size {
        let t = spec_split(m, b, max_depth, min_size)->Some_0;
        assert(collect_spec(t) == seq![b]);
        assert(box_contains(collect_spec(t)[0], x, y));
    } else {
        let midx = (b.xmin + (b.xmax - b.xmin) / 2) as u32;
        let midy = (b.ymin + (b.ymax - b.ymin) / 2) as u32;
        let d = (max_depth - 1) as u32;
        let q1 = BBox { xmin: b.xmin, ymin: b.ymin, xmax: midx, ymax: midy };
        let q2 = BBox { xmin: midx, ymin: b.ymin, xmax: b.xmax, ymax: midy };
        let q3 = BBox { xmin: b.xmin, ymin: midy, xmax: midx, ymax: b.ymax };
        let q4 = BBox { xmin: midx, ymin: midy, xmax: b.xmax, ymax: b.ymax };
        let s1 = spec_split(m, q1, d, min_size);
        let s2 = spec_split(m, q2, d, min_size);
        let s3 = spec_split(m, q3, d, min_size);
        let s4 = spec_split(m, q4, d, min_size);
        let kept = opt_seq(s1) + opt_seq(s2) + opt_seq(s3) + opt_seq(s4);
        let q = if x < midx && y < midy {
            q1
        } else if x >= midx && y < midy {
            q2
        } else if x < midx {
            q3
        } else {
            q4
        };
        lemma_split_covers(m, q, d, min_size, x, y);
        let sq = spec_split(m, q, d, min_size);
        let k = choose|k: int| 0 <= k < kept.len() && kept[k] == sq->Some_0;
        assert(exists|k: int| 0 <= k < kept.len() && kept[k] == sq->Some_0) by {
            if q == q1 {
                assert(kept[0] == sq->Some_0);
            } else if q == q2 {
                assert(kept[opt_seq(s1).len() as int] == sq->Some_0);
            } else if q == q3 {
                assert(kept[opt_seq(s1).len() as int + opt_seq(s2).len() as int]
                    == sq->Some_0);
            } else {
                assert(kept[opt_seq(s1).len() as int + opt_seq(s2).len() as int
                    + opt_seq(s3).len() as int] == sq->Some_0);
            }
        }
        assert(kept.len() >= 1);
        if kept.len() == 1 {
            assert(kept[0] == sq->Some_0);
            assert(spec_split(m, b, max_depth, min_size)->Some_0 == sq->Some_0);
        } else {
            assert(spec_split(m, b, max_depth, min_size)->Some_0 == QTree::Branch(kept));
            lemma_collect_member_covers(kept, k, x, y);
        }
    }
}

/// Merging keeps every pixel covered: a merged leaf is the bounding
/// rectangle of the leaves it replaces.
pub proof fn lemma_merge_covers(t: QTree, x: int, y: int)
    requires
        covered_by(collect_spec(t), x, y),
    ensures
        covered_by(collect_spec(spec_merge(t)), x, y),
    decreases tree_size(t),
{
    match t {
        QTree::Leaf(_) => {}
        QTree::Branch(cs) => {
            let ms = spec_merge_seq(cs);
            lemma_merge_seq(cs);
            // Find the member whose boxes cover the pixel.
            let k = lemma_collect_covers_member(cs, x, y);
            lemma_forest_member_size(cs, k);
            lemma_merge_covers(cs[k], x, y);
            assert(ms[k] == spec_merge(cs[k]));
            match spec_try_merge(ms) {
                Some(bb) => {
                    // The pixel's box is one of the merged leaves, and the
                    // bounding rectangle contains it.
                    assert(all_leaves(ms) && ms.len() > 0);
                    let i = choose|i: int|
                        0 <= i < collect_spec(ms[k]).len() && box_contains(
                            #[trigger] collect_spec(ms[k])[i],
                            x,
                            y,
                        );
                    assert(ms[k] is Leaf);
                    assert(collect_spec(ms[k]) == seq![leaf_box(ms[k])]);
                    assert(box_contains(leaf_box(ms[k]), x, y));
                    assert(boxes_of(ms)[k] == leaf_box(ms[k]));
                    lemma_bound_of_contains_member(boxes_of(ms), k);
                    assert(box_contains(bb, x, y));
                    assert(collect_spec(spec_merge(t)) == seq![bb]);
                    assert(box_contains(collect_spec(spec_merge(t))[0], x, y));
                }
                None => {
                    lemma_collect_member_covers(ms, k, x, y);
                }
            }
        }
    }
}

/// Whichever member of a forest holds the covering box.
pub proof fn lemma_collect_covers_member(s: Seq<QTree>, x: int, y: int) -> (k: int)
    requires
        covered_by(collect_seq_spec(s), x, y),
    ensures
        0 <= k < s.len(),
        covered_by(collect_spec(s[k]), x, y),
    decreases s,
{
    assert(s.len() > 0) by {
        if s.len() == 0 {
            let i = choose|i: int|
                0 <= i < collect_seq_spec(s).len() && box_contains(
                    #[trigger] collect_seq_spec(s)[i],
                    x,
                    y,
                );
        }
    }
    let c0 = collect_spec(s[0]);
    let cr = collect_seq_spec(s.drop_first());
    let i = choose|i: int|
        0 <= i < collect_seq_spec(s).len() && box_contains(#[trigger] collect_seq_spec(s)[i], x, y);
    if i < c0.len() {
        assert(c0[i] == collect_seq_spec(s)[i]);
        assert(box_contains(c0[i], x, y));
        0
    } else {
        assert(cr[i - c0.len()] == collect_seq_spec(s)[i]);
        assert(box_contains(cr[i - c0.len()], x, y));
        let k2 = lemma_collect_covers_member(s.drop_first(), x, y);
        assert(s.drop_first()[k2] == s[k2 + 1]);
        k2 + 1
    }
}

/// The bounding rectangle of a list contains each member box's range.
pub proof fn lemma_bound_of_contains_member(bs: Seq<BBox>, k: int)
    requires
        0 <= k < bs.len(),
    ensures
        bound_of(bs).xmin <= bs[k].xmin,
        bound_of(bs).ymin <= bs[k].ymin,
        bs[k].xmax <= bound_of(bs).xmax,
        bs[k].ymax <= bound_of(bs).ymax,
    decreases bs,
{
    if bs.len() > 1 {
        if k < bs.len() - 1 {
            assert(bs.drop_last()[k] == bs[k]);
            lemma_bound_of_contains_member(bs.drop_last(), k);
        }
    }
}

} // verus!
