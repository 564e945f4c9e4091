use vstd::prelude::*;

use crate::grid::{GrayGrid, Mask};
use crate::RefineError;

verus! {

/// The sum of all pixel values.
pub open spec fn sum_vals(s: Seq<u8>) -> int
    decreases s,
{
    if s.len() == 0 {
        0
    } else {
        sum_vals(s.drop_last()) + s.last()
    }
}

/// How many pixels have value exactly `v`.
pub open spec fn count_eq(s: Seq<u8>, v: int) -> int
    decreases s,
{
    if s.len() == 0 {
        0
    } else {
        count_eq(s.drop_last(), v) + if s.last() == v {
            1int
        } else {
            0int
        }
    }
}

/// How many pixels have value at most `t`.
pub open spec fn count_le(s: Seq<u8>, t: int) -> int
    decreases s,
{
    if s.len() == 0 {
        0
    } else {
        count_le(s.drop_last(), t) + if s.last() <= t {
            1int
        } else {
            0int
        }
    }
}

/// The sum of the pixel values that are at most `t`.
pub open spec fn sum_le(s: Seq<u8>, t: int) -> int
    decreases s,
{
    if s.len() == 0 {
        0
    } else {
        sum_le(s.drop_last(), t) + if s.last() <= t {
            s.last() as int
        } else {
            0int
        }
    }
}

/// Numerator of the between-class variance at split `t`, over the exact
/// rationals: with `n` pixels of total sum `S`, background class of size
/// `c = count_le(s, t)` and sum `u = sum_le(s, t)`, the variance is
/// `(n*u - S*c)^2 / (n^2 * c * (n - c))`; the common `n^2` factor is
/// dropped since only comparisons matter. A split with an empty class
/// has variance zero.
pub open spec fn var_num(s: Seq<u8>, t: int) -> int {
    let n = s.len() as int;
    let c = count_le(s, t);
    if 0 < c < n {
        let d = n * sum_le(s, t) - sum_vals(s) * c;
        d * d
    } else {
        0
    }
}

/// Denominator of the between-class variance at split `t`.
pub open spec fn var_den(s: Seq<u8>, t: int) -> int {
    let n = s.len() as int;
    let c = count_le(s, t);
    if 0 < c < n {
        c * (n - c)
    } else {
        1
    }
}

/// The between-class variance at split `a` strictly exceeds the one at
/// split `b` (exact cross-multiplied comparison).
pub open spec fn var_above(s: Seq<u8>, a: int, b: int) -> bool {
    var_num(s, a) * var_den(s, b) > var_num(s, b) * var_den(s, a)
}

/// `t` is the Otsu threshold of the pixel distribution `s`: no split has
/// a strictly greater between-class variance, and every smaller split
/// has a strictly smaller one (ties resolve to the first split).
pub open spec fn is_otsu_choice(s: Seq<u8>, t: u8) -> bool {
    &&& forall|u: int| 0 <= u < 256 ==> !var_above(s, u, t as int)
    &&& forall|u: int| 0 <= u < t as int ==> var_above(s, t as int, u)
}

/// The Otsu threshold of a pixel distribution.
pub open spec fn the_otsu(s: Seq<u8>) -> u8 {
    choose|t: u8| is_otsu_choice(s, t)
}

/// At most one threshold satisfies `is_otsu_choice`.
pub proof fn lemma_otsu_unique(s: Seq<u8>, t1: u8, t2: u8)
    requires
        is_otsu_choice(s, t1),
        is_otsu_choice(s, t2),
    ensures
        t1 == t2,
{
    if t1 < t2 {
        assert(var_above(s, t2 as int, t1 as int));
        assert(!var_above(s, t2 as int, t1 as int));
    }
    if t2 < t1 {
        assert(var_above(s, t1 as int, t2 as int));
        assert(!var_above(s, t1 as int, t2 as int));
    }
}

/// Counts and sums over a distribution stay within its length and
/// largest value.
pub proof fn lemma_dist_bounds(s: Seq<u8>, t: int)
    ensures
        0 <= count_eq(s, t) <= s.len(),
        0 <= count_le(s, t) <= s.len(),
        0 <= sum_le(s, t) <= sum_vals(s),
        0 <= sum_vals(s) <= 255 * s.len(),
    decreases s,
{
    if s.len() > 0 {
        lemma_dist_bounds(s.drop_last(), t);
    }
}

/// Raising the split from `t - 1` to `t` moves exactly the pixels of
/// value `t` into the background class.
pub proof fn lemma_split_step(s: Seq<u8>, t: int)
    ensures
        count_le(s, t) == count_le(s, t - 1) + count_eq(s, t),
        sum_le(s, t) == sum_le(s, t - 1) + t * count_eq(s, t),
    decreases s,
{
    if s.len() > 0 {
        lemma_split_step(s.drop_last(), t);
        assert(t * (count_eq(s.drop_last(), t) + 1) == t * count_eq(s.drop_last(), t) + t)
            by (nonlinear_arith);
    }
}

/// Below every pixel value the background class is empty.
pub proof fn lemma_count_le_neg(s: Seq<u8>, t: int)
    requires
        t < 0,
    ensures
        count_le(s, t) == 0,
        sum_le(s, t) == 0,
    decreases s,
{
    if s.len() > 0 {
        lemma_count_le_neg(s.drop_last(), t);
    }
}

/// Transitivity of the exact variance comparison: if the variance at `a`
/// is at most the one at `b`, and the one at `b` is below the one at
/// `c`, then the one at `a` is below the one at `c`.
pub proof fn lemma_var_trans(s: Seq<u8>, a: int, b: int, c: int)
    requires
        !var_above(s, a, b),
        var_above(s, c, b),
        var_den(s, a) > 0,
        var_den(s, b) > 0,
        var_den(s, c) > 0,
    ensures
        var_above(s, c, a),
{
    let na = var_num(s, a);
    let nb = var_num(s, b);
    let nc = var_num(s, c);
    let da = var_den(s, a);
    let db = var_den(s, b);
    let dc = var_den(s, c);
    assert(nc * da > na * dc) by (nonlinear_arith)
        requires
            na * db <= nb * da,
            nc * db > nb * dc,
            da > 0,
            db > 0,
            dc > 0,
    ;
}

/// The variance denominator is positive and, with the numerator, small
/// enough that cross products fit the machine comparison.
pub proof fn lemma_var_bounds(s: Seq<u8>, a: int, b: int)
    requires
        s.len() <= 524288,
    ensures
        var_den(s, a) >= 1,
        var_num(s, a) >= 0,
        var_num(s, a) * var_den(s, b) <= 0xffff_ffff_ffff_ffff_ffff_ffff_ffff_ffff,
{
    let n = s.len() as int;
    lemma_dist_bounds(s, a);
    lemma_dist_bounds(s, b);
    let ca = count_le(s, a);
    let cb = count_le(s, b);
    assert(var_den(s, a) >= 1) by {
        if 0 < ca < n {
            assert(1 <= ca * (n - ca)) by (nonlinear_arith)
                requires 0 < ca < n;
        }
    }
    assert(var_num(s, a) >= 0) by {
        if 0 < ca < n {
            let d = n * sum_le(s, a) - sum_vals(s) * ca;
            assert(0 <= d * d) by (nonlinear_arith);
        }
    }
    if !(0 < ca < n) {
        assert(var_num(s, a) == 0);
        assert(0 * var_den(s, b) == 0) by (nonlinear_arith);
    }
    if 0 < ca < n {
        let u = sum_le(s, a);
        let big = sum_vals(s);
        let d = n * u - big * ca;
        let bnd = 255 * n * n;
        assert(0 <= n * u <= bnd && 0 <= big * ca <= bnd) by (nonlinear_arith)
            requires
                0 <= u <= big,
                0 <= big <= 255 * n,
                0 < ca < n,
                bnd == 255 * n * n,
        ;
        assert(0 - bnd <= d <= bnd);
        assert(0 <= d * d && d * d <= bnd * bnd) by (nonlinear_arith)
            requires 0 - bnd <= d <= bnd;
        let dnb = var_den(s, b);
        assert(1 <= dnb && (4 * dnb <= n * n || dnb == 1)) by {
            if 0 < cb < n {
                assert(1 <= cb * (n - cb) && 4 * (cb * (n - cb)) <= n * n) by (nonlinear_arith)
                    requires 0 < cb < n;
            }
        }
        let vn = var_num(s, a);
        assert(vn == d * d);
        if dnb == 1 {
            assert(bnd * bnd <= 0xffff_ffff_ffff_ffff_ffff_ffff_ffff_ffff) by (nonlinear_arith)
                requires 0 <= n <= 524288 && bnd == 255 * n * n;
            assert(vn * dnb == vn) by (nonlinear_arith)
                requires dnb == 1;
        } else {
            assert(4 * ((d * d) * dnb) <= (bnd * bnd) * (n * n)) by (nonlinear_arith)
                requires
                    0 <= d * d <= bnd * bnd,
                    1 <= dnb,
                    4 * dnb <= n * n,
            ;
            assert((bnd * bnd) * (n * n) <= 4 * 0xffff_ffff_ffff_ffff_ffff_ffff_ffff_ffff)
                by (nonlinear_arith)
                requires 0 <= n <= 524288 && bnd == 255 * n * n;
        }
    }
}

/// Computes the Otsu threshold of a non-empty pixel distribution by an
/// exhaustive scan of the 256 candidate splits, comparing between-class
/// variances exactly (ties go to the first candidate). The pixel-count
/// bound comes from the machine: the exact cross-multiplied comparison
/// multiplies a squared numerator (up to 255 squared times the count to
/// the fourth) by a class product (up to a quarter of the count
/// squared), and 524288 pixels is where that product reaches the top of
/// the widest native integer.
pub fn otsu_level(pixels: &Vec<u8>) -> (r: u8)
    requires
        1 <= pixels@.len() <= 524288,
    ensures
        is_otsu_choice(pixels@, r),
        r == the_otsu(pixels@),
{
    let ghost s = pixels@;
    let n = pixels.len();
    let mut hist: Vec<u32> = Vec::new();
    let mut v: usize = 0;
    while v < 256
        invariant
            v <= 256,
            hist@.len() == v,
            forall|w: int| 0 <= w < v ==> hist@[w] == 0,
        decreases 256 - v,
    {
        hist.push(0);
        v = v + 1;
    }
    proof {
        assert forall|w: int| 0 <= w < 256 implies hist@[w] as int == count_eq(s.take(0), w) by {
            assert(s.take(0) =~= Seq::<u8>::empty());
        }
    }
    let mut i: usize = 0;
    while i < n
        invariant
            n == s.len(),
            1 <= n <= 524288,
            s == pixels@,
            i <= n,
            hist@.len() == 256,
            forall|w: int| 0 <= w < 256 ==> hist@[w] as int == count_eq(s.take(i as int), w),
        decreases n - i,
    {
        let p = pixels[i];
        proof {
            assert(s.take(i + 1).drop_last() =~= s.take(i as int));
            assert(s.take(i + 1).last() == s[i as int]);
            lemma_dist_bounds(s.take(i as int), p as int);
            assert(s.take(i as int).len() == i);
        }
        let c = hist[p as usize];
        hist.set(p as usize, c + 1);
        proof {
            assert forall|w: int| 0 <= w < 256
                implies hist@[w] as int == count_eq(s.take(i + 1), w) by {
                assert(count_eq(s.take(i + 1), w) == count_eq(s.take(i as int), w)
                    + if s[i as int] == w { 1int } else { 0int });
            }
        }
        i = i + 1;
    }
    proof {
        assert(s.take(n as int) =~= s);
    }
    let mut total: u64 = 0;
    let mut j: usize = 0;
    while j < n
        invariant
            n == s.len(),
            1 <= n <= 524288,
            s == pixels@,
            j <= n,
            total as int == sum_vals(s.take(j as int)),
            total <= 255 * j,
        decreases n - j,
    {
        proof {
            assert(s.take(j + 1).drop_last() =~= s.take(j as int));
            assert(s.take(j + 1).last() == s[j as int]);
        }
        total = total + pixels[j] as u64;
        j = j + 1;
    }
    proof {
        assert(s.take(n as int) =~= s);
        lemma_count_le_neg(s, -1);
    }
    let mut c0: u64 = 0;
    let mut s0: u64 = 0;
    let mut best_t: u8 = 0;
    let mut best_num: u128 = 0;
    let mut best_den: u64 = 1;
    let mut t: usize = 0;
    while t < 256
        invariant
            n == s.len(),
            1 <= n <= 524288,
            s == pixels@,
            hist@.len() == 256,
            forall|w: int| 0 <= w < 256 ==> hist@[w] as int == count_eq(s, w),
            total as int == sum_vals(s),
            t <= 256,
            c0 as int == count_le(s, t - 1),
            s0 as int == sum_le(s, t - 1),
            best_t as int <= 255,
            best_num == 0 ==> best_t == 0 && best_den == 1
                && (forall|u: int| 0 <= u < t ==> var_num(s, u) == 0),
            best_num > 0 ==> (best_t as int) < t
                && best_num as int == var_num(s, best_t as int)
                && best_den as int == var_den(s, best_t as int)
                && (forall|u: int| 0 <= u < best_t as int ==> var_above(s, best_t as int, u)),
            forall|u: int| 0 <= u < t ==> !var_above(s, u, best_t as int),
        decreases 256 - t,
    {
        let ht = hist[t];
        proof {
            lemma_split_step(s, t as int);
            lemma_dist_bounds(s, t as int);
            lemma_dist_bounds(s, t - 1);
            assert((t as int) * (ht as int) <= 255 * 524288) by (nonlinear_arith)
                requires 0 <= (t as int) && (t as int) <= 255 && 0 <= (ht as int) && (ht as int) <= 524288;
            assert((t as int) * (count_eq(s, t as int)) == (t as int) * (ht as int));
        }
        c0 = c0 + ht as u64;
        s0 = s0 + (t as u64) * (ht as u64);
        let nn = n as u64;
        let mut num: u128 = 0;
        let mut den: u64 = 1;
        if c0 > 0 && c0 < nn {
            proof {
                assert((n as int) * (s0 as int) <= 524288 * (255 * 524288)) by (nonlinear_arith)
                    requires 0 <= (n as int) && (n as int) <= 524288 && 0 <= (s0 as int) && (s0 as int) <= 255 * 524288;
                assert((total as int) * (c0 as int) <= (255 * 524288) * 524288)
                    by (nonlinear_arith)
                    requires 0 <= (total as int) && (total as int) <= 255 * 524288 && 0 <= (c0 as int) && (c0 as int) <= 524288;
            }
            let di: i128 = (nn as i128) * (s0 as i128) - (total as i128) * (c0 as i128);
            proof {
                let bnd2: int = 524288int * (255int * 524288int);
                assert(0 - bnd2 <= di as int <= bnd2);
                assert(0 <= (di as int) * (di as int) && (di as int) * (di as int)
                    <= bnd2 * bnd2) by (nonlinear_arith)
                    requires 0 - bnd2 <= (di as int) && (di as int) <= bnd2 && bnd2 == 524288 * (255 * 524288);
                assert((c0 as int) * ((nn as int) - (c0 as int)) <= 524288 * 524288)
                    by (nonlinear_arith)
                    requires 0 < (c0 as int) && (c0 as int) < (nn as int) && (nn as int) <= 524288;
                assert((c0 as int) * ((nn as int) - (c0 as int)) >= 1) by (nonlinear_arith)
                    requires 0 < (c0 as int) && (c0 as int) < (nn as int);
            }
            num = (di * di) as u128;
            den = c0 * (nn - c0);
        }
        proof {
            assert(num as int == var_num(s, t as int));
            assert(den as int == var_den(s, t as int));
            lemma_var_bounds(s, t as int, best_t as int);
            lemma_var_bounds(s, best_t as int, t as int);
            if best_num == 0 {
                assert((num as int) * (best_den as int) == num as int) by (nonlinear_arith)
                    requires best_den == 1;
                assert((best_num as int) * (den as int) == 0) by (nonlinear_arith)
                    requires best_num == 0;
            }
        }
        let lhs: u128 = num * (best_den as u128);
        let rhs: u128 = best_num * (den as u128);
        if lhs > rhs {
            proof {
                if best_num == 0 {
                    assert(num > 0);
                    assert forall|u: int| 0 <= u < t implies var_above(s, t as int, u) by {
                        lemma_var_bounds(s, u, t as int);
                        assert(var_num(s, u) == 0);
                        assert(var_num(s, u) * var_den(s, t as int) == 0) by (nonlinear_arith)
                            requires var_num(s, u) == 0;
                        assert(var_num(s, t as int) * var_den(s, u) > 0) by (nonlinear_arith)
                            requires var_num(s, t as int) > 0 && var_den(s, u) >= 1;
                    }
                } else {
                    assert(var_above(s, t as int, best_t as int));
                    assert forall|u: int| 0 <= u < t implies var_above(s, t as int, u) by {
                        if u != best_t as int {
                            lemma_var_bounds(s, u, u);
                            lemma_var_trans(s, u, best_t as int, t as int);
                        }
                    }
                }
            }
            best_t = t as u8;
            best_num = num;
            best_den = den;
            proof {
                assert forall|u: int| 0 <= u < t + 1
                    implies !var_above(s, u, best_t as int) by {
                    if u < t {
                        assert(var_above(s, t as int, u));
                    }
                }
            }
        } else {
            proof {
                if best_num == 0 {
                    assert(num == 0);
                    assert(!var_above(s, t as int, 0)) by {
                        assert(var_num(s, t as int) * var_den(s, 0) == 0) by (nonlinear_arith)
                            requires var_num(s, t as int) == 0;
                        if var_num(s, 0int) == 0 {
                            assert(var_num(s, 0int) * var_den(s, t as int) == 0)
                                by (nonlinear_arith)
                                requires var_num(s, 0int) == 0;
                        } else {
                            assert(t > 0);
                        }
                    }
                } else {
                    assert(!var_above(s, t as int, best_t as int));
                }
            }
        }
        t = t + 1;
    }
    proof {
        assert(is_otsu_choice(s, best_t));
        assert(is_otsu_choice(s, the_otsu(s))) by {
            assert(exists|q: u8| is_otsu_choice(s, q));
        }
        lemma_otsu_unique(s, best_t, the_otsu(s));
    }
    best_t
}

/// A pixel value as the threshold sees it: inverted when requested.
pub open spec fn pix_val(v: u8, inverse: bool) -> u8 {
    if inverse {
        (255 - v) as u8
    } else {
        v
    }
}

/// The values of the masked pixels, in storage order, inverted when
/// requested.
pub open spec fn masked_pixels(img: Seq<u8>, msk: Seq<bool>, inverse: bool) -> Seq<u8>
    decreases img,
{
    if img.len() == 0 {
        Seq::empty()
    } else {
        masked_pixels(img.drop_last(), msk.drop_last(), inverse) + if msk.last() {
            seq![pix_val(img.last(), inverse)]
        } else {
            Seq::empty()
        }
    }
}

/// Applies adaptive thresholding inside a coarse mask: the Otsu
/// threshold of the masked pixel values (inverted when `inverse`) is
/// applied to the whole image, and the result is intersected with the
/// mask. Fails when the dimensions disagree or no pixel is masked.
/// The pixel-count bound is inherited from the exact integer variance
/// comparison of `otsu_level`.
pub fn otsu_in_mask(image: &GrayGrid, mask: &Mask, inverse: bool) -> (r: Result<
    Mask,
    RefineError,
>)
    requires
        image.wf(),
        mask.wf(),
        image.width * image.height <= 524288,
    ensures
        (image.width != mask.width || image.height != mask.height)
            ==> r === Err(RefineError::DimensionMismatch),
        image.width == mask.width && image.height == mask.height
            && masked_pixels(image.data@, mask.data@, inverse).len() == 0
            ==> r === Err(RefineError::EmptyInput),
        image.width == mask.width && image.height == mask.height
            && masked_pixels(image.data@, mask.data@, inverse).len() > 0
            ==> (r matches Ok(out) && out.wf() && out.width == mask.width
                && out.height == mask.height && (forall|i: int| 0 <= i < out.data@.len()
                    ==> out.data@[i] == (mask.data@[i] && pix_val(image.data@[i], inverse)
                        > the_otsu(masked_pixels(image.data@, mask.data@, inverse))))),
{
    if image.width != mask.width || image.height != mask.height {
        return Err(RefineError::DimensionMismatch);
    }
    let ghost gi = image.data@;
    let ghost gm = mask.data@;
    let n = image.data.len();
    proof {
        assert(gm.len() == n);
    }
    let mut mp: Vec<u8> = Vec::new();
    let mut i: usize = 0;
    while i < n
        invariant
            image.wf(),
            mask.wf(),
            gi == image.data@,
            gm == mask.data@,
            n == gi.len(),
            gm.len() == n,
            i <= n,
            mp@ == masked_pixels(gi.take(i as int), gm.take(i as int), inverse),
            mp@.len() <= i,
        decreases n - i,
    {
        proof {
            assert(gi.take(i + 1).drop_last() =~= gi.take(i as int));
            assert(gm.take(i + 1).drop_last() =~= gm.take(i as int));
            assert(gi.take(i + 1).last() == gi[i as int]);
            assert(gm.take(i + 1).last() == gm[i as int]);
        }
        if mask.data[i] {
            let v = image.data[i];
            mp.push(if inverse { 255 - v } else { v });
        }
        i = i + 1;
    }
    proof {
        assert(gi.take(n as int) =~= gi);
        assert(gm.take(n as int) =~= gm);
    }
    if mp.len() == 0 {
        return Err(RefineError::EmptyInput);
    }
    let thr = otsu_level(&mp);
    let mut out: Vec<bool> = Vec::new();
    let mut j: usize = 0;
    while j < n
        invariant
            image.wf(),
            mask.wf(),
            gi == image.data@,
            gm == mask.data@,
            n == gi.len(),
            gm.len() == n,
            j <= n,
            out@.len() == j,
            forall|k: int| 0 <= k < j
                ==> out@[k] == (gm[k] && pix_val(gi[k], inverse) > thr),
        decreases n - j,
    {
        let v = image.data[j];
        let pv = if inverse { 255 - v } else { v };
        let keep = pv > thr && mask.data[j];
        out.push(keep);
        j = j + 1;
    }
    let res = Mask { width: mask.width, height: mask.height, data: out };
    proof {
        assert(res.wf());
        assert(mp@ == masked_pixels(gi, gm, inverse));
        assert(thr == the_otsu(masked_pixels(gi, gm, inverse)));
        assert(forall|k: int| 0 <= k < res.data@.len()
            ==> res.data@[k] == (gm[k] && pix_val(gi[k], inverse)
                > the_otsu(masked_pixels(gi, gm, inverse))));
    }
    Ok(res)
}

/// On a distribution where every pixel has one single intensity, the
/// background class at any split is empty or everything.
pub proof fn lemma_uniform_counts(s: Seq<u8>, v: u8, u: int)
    requires
        forall|i: int| 0 <= i < s.len() ==> s[i] == v,
    ensures
        count_le(s, u) == if v <= u {
            s.len() as int
        } else {
            0
        },
    decreases s,
{
    if s.len() > 0 {
        assert forall|i: int| 0 <= i < s.drop_last().len()
            implies s.drop_last()[i] == v by {
            assert(s.drop_last()[i] == s[i]);
        }
        lemma_uniform_counts(s.drop_last(), v, u);
    }
}

/// Law of the thresholder: when all masked pixels share one intensity,
/// the chosen threshold does not split that uniform value away from
/// itself. Every candidate split leaves one class empty, so every
/// between-class variance is zero, the chosen threshold's variance is
/// greatest, and the scan settles on the first candidate.
pub proof fn lemma_uniform_intensity_threshold(s: Seq<u8>, v: u8, t: u8)
    requires
        s.len() > 0,
        forall|i: int| 0 <= i < s.len() ==> s[i] == v,
        is_otsu_choice(s, t),
    ensures
        forall|u: int| 0 <= u < 256 ==> var_num(s, u) == 0,
        forall|u: int| 0 <= u < 256 ==> !var_above(s, u, t as int),
        t == 0,
{
    assert forall|u: int| 0 <= u < 256 implies var_num(s, u) == 0 by {
        lemma_uniform_counts(s, v, u);
    }
    if t > 0 {
        assert(var_above(s, t as int, 0));
        assert(var_num(s, t as int) == 0);
        assert(var_num(s, 0int) == 0);
        assert(var_num(s, t as int) * var_den(s, 0int) == 0) by (nonlinear_arith)
            requires var_num(s, t as int) == 0;
        assert(var_num(s, 0int) * var_den(s, t as int) == 0) by (nonlinear_arith)
            requires var_num(s, 0int) == 0;
    }
}

} // verus!
