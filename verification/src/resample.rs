//! Box-filter downsampling: each target cell is the integer-truncated mean of
//! a rectangular patch of source samples.

use crate::raster::Raster;
use vstd::arithmetic::div_mod::lemma_div_is_ordered;
use vstd::arithmetic::div_mod::lemma_div_multiples_vanish;
use vstd::arithmetic::div_mod::lemma_div_plus_one;
use vstd::arithmetic::div_mod::lemma_div_pos_is_pos;
use vstd::arithmetic::div_mod::lemma_fundamental_div_mod_converse;
use vstd::prelude::*;

verus! {

/// First source index of the patch of target coordinate `t` along one axis.
pub open spec fn patch_lo(t: int, src_dim: int, tgt_dim: int) -> int {
    (t * src_dim) / tgt_dim
}

/// One past the last source index of the patch of target coordinate `t`.
pub open spec fn patch_hi(t: int, src_dim: int, tgt_dim: int) -> int {
    ((t + 1) * src_dim) / tgt_dim
}

/// Sum of the samples at columns `xb..xe` of row `y` of a raster of width `w`.
pub open spec fn row_sum(src: Seq<u8>, w: int, y: int, xb: int, xe: int) -> int
    decreases xe - xb,
{
    if xe <= xb {
        0
    } else {
        row_sum(src, w, y, xb, xe - 1) + src[y * w + (xe - 1)]
    }
}

/// Sum of the samples in the half-open rectangle `[xb, xe) x [yb, ye)`.
pub open spec fn patch_sum(src: Seq<u8>, w: int, xb: int, xe: int, yb: int, ye: int) -> int
    decreases ye - yb,
{
    if ye <= yb {
        0
    } else {
        patch_sum(src, w, xb, xe, yb, ye - 1) + row_sum(src, w, ye - 1, xb, xe)
    }
}

/// Smallest sample at columns `xb..xe` of row `y` (for `xb < xe`).
pub open spec fn row_min(src: Seq<u8>, w: int, y: int, xb: int, xe: int) -> int
    decreases xe - xb,
{
    if xe <= xb + 1 {
        src[y * w + xb] as int
    } else {
        let m = row_min(src, w, y, xb, xe - 1);
        let v = src[y * w + (xe - 1)] as int;
        if v < m {
            v
        } else {
            m
        }
    }
}

/// Largest sample at columns `xb..xe` of row `y` (for `xb < xe`).
pub open spec fn row_max(src: Seq<u8>, w: int, y: int, xb: int, xe: int) -> int
    decreases xe - xb,
{
    if xe <= xb + 1 {
        src[y * w + xb] as int
    } else {
        let m = row_max(src, w, y, xb, xe - 1);
        let v = src[y * w + (xe - 1)] as int;
        if v > m {
            v
        } else {
            m
        }
    }
}

/// Smallest sample in the rectangle `[xb, xe) x [yb, ye)` (for a non-empty
/// rectangle).
pub open spec fn patch_min(src: Seq<u8>, w: int, xb: int, xe: int, yb: int, ye: int) -> int
    decreases ye - yb,
{
    if ye <= yb + 1 {
        row_min(src, w, yb, xb, xe)
    } else {
        let m = patch_min(src, w, xb, xe, yb, ye - 1);
        let v = row_min(src, w, ye - 1, xb, xe);
        if v < m {
            v
        } else {
            m
        }
    }
}

/// Largest sample in the rectangle `[xb, xe) x [yb, ye)` (for a non-empty
/// rectangle).
pub open spec fn patch_max(src: Seq<u8>, w: int, xb: int, xe: int, yb: int, ye: int) -> int
    decreases ye - yb,
{
    if ye <= yb + 1 {
        row_max(src, w, yb, xb, xe)
    } else {
        let m = patch_max(src, w, xb, xe, yb, ye - 1);
        let v = row_max(src, w, ye - 1, xb, xe);
        if v > m {
            v
        } else {
            m
        }
    }
}

/// The integer-truncated mean of the source patch of target cell `(x, y)`.
pub open spec fn cell_value(
    src: Seq<u8>,
    sw: int,
    sh: int,
    tw: int,
    th: int,
    x: int,
    y: int,
) -> int {
    let xb = patch_lo(x, sw, tw);
    let xe = patch_hi(x, sw, tw);
    let yb = patch_lo(y, sh, th);
    let ye = patch_hi(y, sh, th);
    patch_sum(src, sw, xb, xe, yb, ye) / ((xe - xb) * (ye - yb))
}

/// The whole resampled raster at target resolution `tw x th`, row-major.
pub open spec fn resampled(src: Seq<u8>, sw: int, sh: int, tw: int, th: int) -> Seq<u8> {
    Seq::new((tw * th) as nat, |i: int| cell_value(src, sw, sh, tw, th, i % tw, i / tw) as u8)
}

/// For a source dimension at least as large as the target dimension, every
/// target coordinate's patch is non-empty and stays inside the source.
pub proof fn lemma_patch_nonempty(t: int, src_dim: int, tgt_dim: int)
    requires
        0 < tgt_dim <= src_dim,
        0 <= t < tgt_dim,
    ensures
        0 <= patch_lo(t, src_dim, tgt_dim),
        patch_lo(t, src_dim, tgt_dim) < patch_hi(t, src_dim, tgt_dim),
        patch_hi(t, src_dim, tgt_dim) <= src_dim,
{
    assert(0 <= t * src_dim && (t + 1) * src_dim == t * src_dim + src_dim && (t + 1) * src_dim
        <= tgt_dim * src_dim) by (nonlinear_arith)
        requires
            0 <= t,
            t + 1 <= tgt_dim,
            0 < src_dim,
    ;
    lemma_div_pos_is_pos(t * src_dim, tgt_dim);
    lemma_div_plus_one(t * src_dim, tgt_dim);
    lemma_div_is_ordered(tgt_dim + t * src_dim, (t + 1) * src_dim, tgt_dim);
    lemma_div_is_ordered((t + 1) * src_dim, tgt_dim * src_dim, tgt_dim);
    lemma_div_multiples_vanish(src_dim, tgt_dim);
}

/// The sum over one row segment lies between the segment's extremes scaled by
/// its length.
proof fn lemma_row_sum_in_range(src: Seq<u8>, w: int, y: int, xb: int, xe: int)
    requires
        xb < xe,
    ensures
        0 <= row_min(src, w, y, xb, xe) <= row_max(src, w, y, xb, xe) <= 255,
        (xe - xb) * row_min(src, w, y, xb, xe) <= row_sum(src, w, y, xb, xe),
        row_sum(src, w, y, xb, xe) <= (xe - xb) * row_max(src, w, y, xb, xe),
    decreases xe - xb,
{
    if xe == xb + 1 {
        assert(row_sum(src, w, y, xb, xb) == 0);
    } else {
        lemma_row_sum_in_range(src, w, y, xb, xe - 1);
        let n = xe - 1 - xb;
        let mn0 = row_min(src, w, y, xb, xe - 1);
        let mx0 = row_max(src, w, y, xb, xe - 1);
        let mn = row_min(src, w, y, xb, xe);
        let mx = row_max(src, w, y, xb, xe);
        let v = src[y * w + (xe - 1)] as int;
        assert(n * mn0 >= n * mn && (n + 1) * mn == n * mn + mn) by (nonlinear_arith)
            requires
                0 <= n,
                mn <= mn0,
        ;
        assert(n * mx0 <= n * mx && (n + 1) * mx == n * mx + mx) by (nonlinear_arith)
            requires
                0 <= n,
                mx0 <= mx,
        ;
    }
}

/// The sum over a non-empty patch lies between the patch's extremes scaled by
/// its area.
proof fn lemma_patch_sum_in_range(src: Seq<u8>, w: int, xb: int, xe: int, yb: int, ye: int)
    requires
        xb < xe,
        yb < ye,
    ensures
        0 <= patch_min(src, w, xb, xe, yb, ye) <= patch_max(src, w, xb, xe, yb, ye) <= 255,
        (xe - xb) * (ye - yb) * patch_min(src, w, xb, xe, yb, ye) <= patch_sum(
            src,
            w,
            xb,
            xe,
            yb,
            ye,
        ),
        patch_sum(src, w, xb, xe, yb, ye) <= (xe - xb) * (ye - yb) * patch_max(
            src,
            w,
            xb,
            xe,
            yb,
            ye,
        ),
    decreases ye - yb,
{
    let cols = xe - xb;
    if ye == yb + 1 {
        assert(patch_sum(src, w, xb, xe, yb, yb) == 0);
        lemma_row_sum_in_range(src, w, yb, xb, xe);
        assert(cols * 1 * patch_min(src, w, xb, xe, yb, ye) == cols * patch_min(
            src,
            w,
            xb,
            xe,
            yb,
            ye,
        )) by (nonlinear_arith);
        assert(cols * 1 * patch_max(src, w, xb, xe, yb, ye) == cols * patch_max(
            src,
            w,
            xb,
            xe,
            yb,
            ye,
        )) by (nonlinear_arith);
    } else {
        lemma_patch_sum_in_range(src, w, xb, xe, yb, ye - 1);
        lemma_row_sum_in_range(src, w, ye - 1, xb, xe);
        let rows = ye - 1 - yb;
        let mn0 = patch_min(src, w, xb, xe, yb, ye - 1);
        let mx0 = patch_max(src, w, xb, xe, yb, ye - 1);
        let rmn = row_min(src, w, ye - 1, xb, xe);
        let rmx = row_max(src, w, ye - 1, xb, xe);
        let mn = patch_min(src, w, xb, xe, yb, ye);
        let mx = patch_max(src, w, xb, xe, yb, ye);
        assert(cols * rows * mn0 + cols * rmn >= cols * (rows + 1) * mn) by (nonlinear_arith)
            requires
                0 <= cols,
                0 <= rows,
                mn <= mn0,
                mn <= rmn,
                cols * rows * mn0 >= cols * rows * mn0,
        ;
        assert(cols * rows * mx0 + cols * rmx <= cols * (rows + 1) * mx) by (nonlinear_arith)
            requires
                0 <= cols,
                0 <= rows,
                mx0 <= mx,
                rmx <= mx,
        ;
        assert(cols * rows * mn0 >= cols * rows * mn) by (nonlinear_arith)
            requires
                0 <= cols,
                0 <= rows,
                mn <= mn0,
        ;
        assert(cols * rows * mx0 <= cols * rows * mx) by (nonlinear_arith)
            requires
                0 <= cols,
                0 <= rows,
                mx0 <= mx,
        ;
    }
}

/// Each resampled cell lies between the smallest and the largest sample of
/// its source patch.
pub proof fn lemma_cell_value_in_patch_range(
    src: Seq<u8>,
    sw: int,
    sh: int,
    tw: int,
    th: int,
    x: int,
    y: int,
)
    requires
        0 < tw <= sw,
        0 < th <= sh,
        0 <= x < tw,
        0 <= y < th,
    ensures
        ({
            let xb = patch_lo(x, sw, tw);
            let xe = patch_hi(x, sw, tw);
            let yb = patch_lo(y, sh, th);
            let ye = patch_hi(y, sh, th);
            patch_min(src, sw, xb, xe, yb, ye) <= cell_value(src, sw, sh, tw, th, x, y)
                <= patch_max(src, sw, xb, xe, yb, ye)
        }),
{
    lemma_patch_nonempty(x, sw, tw);
    lemma_patch_nonempty(y, sh, th);
    let xb = patch_lo(x, sw, tw);
    let xe = patch_hi(x, sw, tw);
    let yb = patch_lo(y, sh, th);
    let ye = patch_hi(y, sh, th);
    lemma_patch_sum_in_range(src, sw, xb, xe, yb, ye);
    let area = (xe - xb) * (ye - yb);
    let mn = patch_min(src, sw, xb, xe, yb, ye);
    let mx = patch_max(src, sw, xb, xe, yb, ye);
    let s = patch_sum(src, sw, xb, xe, yb, ye);
    assert(area >= 1) by (nonlinear_arith)
        requires
            xe - xb >= 1,
            ye - yb >= 1,
            area == (xe - xb) * (ye - yb),
    ;
    assert(area * (ye - yb) * 0 == 0) by (nonlinear_arith);
    lemma_div_is_ordered(area * mn, s, area);
    lemma_div_multiples_vanish(mn, area);
    lemma_div_is_ordered(s, area * mx, area);
    lemma_div_multiples_vanish(mx, area);
}

/// Each cell of the resampled raster holds its patch's truncated mean
/// exactly (the mean always fits in a sample), and that mean lies between the
/// smallest and the largest sample of the patch.
pub proof fn lemma_resampled_cell_in_patch_range(
    src: Seq<u8>,
    sw: int,
    sh: int,
    tw: int,
    th: int,
    x: int,
    y: int,
)
    requires
        0 < tw <= sw,
        0 < th <= sh,
        0 <= x < tw,
        0 <= y < th,
    ensures
        ({
            let xb = patch_lo(x, sw, tw);
            let xe = patch_hi(x, sw, tw);
            let yb = patch_lo(y, sh, th);
            let ye = patch_hi(y, sh, th);
            let cell = resampled(src, sw, sh, tw, th)[y * tw + x];
            &&& cell == cell_value(src, sw, sh, tw, th, x, y)
            &&& patch_min(src, sw, xb, xe, yb, ye) <= cell <= patch_max(src, sw, xb, xe, yb, ye)
        }),
{
    lemma_cell_value_in_patch_range(src, sw, sh, tw, th, x, y);
    lemma_patch_nonempty(x, sw, tw);
    lemma_patch_nonempty(y, sh, th);
    lemma_patch_sum_in_range(
        src,
        sw,
        patch_lo(x, sw, tw),
        patch_hi(x, sw, tw),
        patch_lo(y, sh, th),
        patch_hi(y, sh, th),
    );
    assert(0 <= y * tw + x < tw * th && (y * tw + x) % tw == x && (y * tw + x) / tw == y) by {
        assert(y * tw + x < tw * th && 0 <= y * tw) by (nonlinear_arith)
            requires
                0 <= x < tw,
                0 <= y,
                y + 1 <= th,
        ;
        lemma_fundamental_div_mod_converse(y * tw + x, tw, y, x);
    }
}

/// The integer-truncated mean of the source patch of target cell `(x, y)`,
/// computed by summing the patch and dividing by its area.
pub fn aggregate_pixel_at(src: &Raster, tw: usize, th: usize, x: usize, y: usize) -> (v: u8)
    requires
        src.wf(),
        0 < tw <= src.spec_width(),
        0 < th <= src.spec_height(),
        x < tw,
        y < th,
    ensures
        v == cell_value(
            src@,
            src.spec_width(),
            src.spec_height(),
            tw as int,
            th as int,
            x as int,
            y as int,
        ),
{
    let sw = src.width();
    let sh = src.height();
    proof {
        lemma_patch_nonempty(x as int, sw as int, tw as int);
        lemma_patch_nonempty(y as int, sh as int, th as int);
        assert(sw as int <= sw as int * sh as int && sh as int <= sw as int * sh as int)
            by (nonlinear_arith)
            requires
                1 <= sw as int,
                1 <= sh as int,
        ;
        assert(0 <= x as int * sw as int <= (x as int + 1) * sw as int <= 0xffff_ffffint
            * 0xffff_ffff) by (nonlinear_arith)
            requires
                0 <= x as int,
                x as int + 1 <= sw as int,
                sw as int <= 0xffff_ffff,
        ;
        assert(0 <= y as int * sh as int <= (y as int + 1) * sh as int <= 0xffff_ffffint
            * 0xffff_ffff) by (nonlinear_arith)
            requires
                0 <= y as int,
                y as int + 1 <= sh as int,
                sh as int <= 0xffff_ffff,
        ;
    }
    let xb = ((x as u64 * sw as u64) / tw as u64) as usize;
    let xe = (((x as u64 + 1) * sw as u64) / tw as u64) as usize;
    let yb = ((y as u64 * sh as u64) / th as u64) as usize;
    let ye = (((y as u64 + 1) * sh as u64) / th as u64) as usize;

    let ghost gxb = patch_lo(x as int, sw as int, tw as int);
    let ghost gxe = patch_hi(x as int, sw as int, tw as int);
    let ghost gyb = patch_lo(y as int, sh as int, th as int);
    let ghost gye = patch_hi(y as int, sh as int, th as int);
    assert(xb == gxb && xe == gxe && yb == gyb && ye == gye);

    let mut acc: u64 = 0;
    let mut yy = yb;
    while yy < ye
        invariant
            src.wf(),
            0 <= gxb < gxe <= src.spec_width(),
            0 <= gyb <= yy <= gye <= src.spec_height(),
            xb == gxb,
            xe == gxe,
            ye == gye,
            acc == patch_sum(src@, src.spec_width(), gxb, gxe, gyb, yy as int),
            acc <= 255 * ((gxe - gxb) * (yy - gyb)),
        decreases gye - yy,
    {
        let mut xx = xb;
        let ghost acc_row_base = acc as int;
        while xx < xe
            invariant
                src.wf(),
                0 <= gxb <= xx <= gxe <= src.spec_width(),
                0 <= gyb <= yy < gye <= src.spec_height(),
                gxb < gxe,
                xe == gxe,
                acc == acc_row_base + row_sum(src@, src.spec_width(), yy as int, gxb, xx as int),
                acc_row_base <= 255 * ((gxe - gxb) * (yy - gyb)),
                row_sum(src@, src.spec_width(), yy as int, gxb, xx as int) <= 255 * (xx - gxb),
            decreases gxe - xx,
        {
            proof {
                assert((gxe - gxb) * (yy - gyb) + (gxe - gxb) <= src.spec_width()
                    * src.spec_height()) by (nonlinear_arith)
                    requires
                        0 < gxe - gxb <= src.spec_width(),
                        0 <= yy - gyb,
                        yy + 1 <= src.spec_height(),
                        gyb >= 0,
                        0 < src.spec_width(),
                ;
                assert(255 * ((gxe - gxb) * (yy - gyb)) + 255 * (gxe - gxb) <= 255 * (
                src.spec_width() * src.spec_height()));
            }
            let s = src.get(xx, yy);
            acc = acc + s as u64;
            xx = xx + 1;
        }
        proof {
            assert((gxe - gxb) * ((yy + 1) - gyb) == (gxe - gxb) * (yy - gyb) + (gxe - gxb))
                by (nonlinear_arith);
        }
        yy = yy + 1;
    }
    proof {
        assert(1 <= (gxe - gxb) * (gye - gyb) <= 0xffff_ffffint * 0xffff_ffff)
            by (nonlinear_arith)
            requires
                1 <= gxe - gxb <= 0xffff_ffff,
                1 <= gye - gyb <= 0xffff_ffff,
        ;
    }
    let area = (xe - xb) as u64 * (ye - yb) as u64;
    proof {
        lemma_patch_sum_in_range(src@, src.spec_width(), gxb, gxe, gyb, gye);
        let a = (gxe - gxb) * (gye - gyb);
        let s = patch_sum(src@, src.spec_width(), gxb, gxe, gyb, gye);
        assert(a * patch_max(src@, src.spec_width(), gxb, gxe, gyb, gye) <= a * 255)
            by (nonlinear_arith)
            requires
                a >= 0,
                patch_max(src@, src.spec_width(), gxb, gxe, gyb, gye) <= 255,
        ;
        lemma_div_is_ordered(s, a * 255, a);
        lemma_div_multiples_vanish(255, a);
        lemma_div_pos_is_pos(s, a);
    }
    (acc / area) as u8
}

/// Downsamples `src` to a `tw x th` raster: each target cell is the
/// integer-truncated mean of its source patch.
pub fn resample(src: &Raster, tw: usize, th: usize) -> (r: Raster)
    requires
        src.wf(),
        0 < tw <= src.spec_width(),
        0 < th <= src.spec_height(),
    ensures
        r.wf(),
        r.spec_width() == tw,
        r.spec_height() == th,
        r@ == resampled(src@, src.spec_width(), src.spec_height(), tw as int, th as int),
{
    let ghost target = resampled(src@, src.spec_width(), src.spec_height(), tw as int, th as int);
    proof {
        assert(tw * th <= src.spec_width() * src.spec_height()) by (nonlinear_arith)
            requires
                0 < tw <= src.spec_width(),
                0 < th <= src.spec_height(),
        ;
    }
    let mut data: Vec<u8> = Vec::new();
    let mut y: usize = 0;
    while y < th
        invariant
            src.wf(),
            0 < tw <= src.spec_width(),
            0 < th <= src.spec_height(),
            y <= th,
            tw * th <= u32::MAX,
            data@.len() == y * tw,
            target == resampled(src@, src.spec_width(), src.spec_height(), tw as int, th as int),
            forall|i: int| 0 <= i < data@.len() ==> data@[i] == target[i],
        decreases th - y,
    {
        let mut x: usize = 0;
        proof {
            assert(y * tw + tw <= th * tw && th * tw == tw * th) by (nonlinear_arith)
                requires
                    y + 1 <= th,
                    0 < tw,
            ;
        }
        while x < tw
            invariant
                src.wf(),
                0 < tw <= src.spec_width(),
                0 < th <= src.spec_height(),
                x <= tw,
                y < th,
                tw * th <= u32::MAX,
                y * tw + tw <= tw * th,
                data@.len() == y * tw + x,
                target == resampled(
                    src@,
                    src.spec_width(),
                    src.spec_height(),
                    tw as int,
                    th as int,
                ),
                forall|i: int| 0 <= i < data@.len() ==> data@[i] == target[i],
            decreases tw - x,
        {
            let v = aggregate_pixel_at(src, tw, th, x, y);
            proof {
                lemma_fundamental_div_mod_converse(
                    y as int * tw as int + x as int,
                    tw as int,
                    y as int,
                    x as int,
                );
            }
            data.push(v);
            x = x + 1;
        }
        proof {
            assert((y + 1) * tw == y * tw + tw) by (nonlinear_arith);
        }
        y = y + 1;
    }
    proof {
        assert(th * tw == tw * th) by (nonlinear_arith);
        assert(data@ =~= target);
    }
    Raster::from_data(tw, th, data)
}

} // verus!
