//! Floyd-Steinberg error diffusion: quantizes each cell to the nearest
//! palette brightness in strict row-major order and pushes the signed
//! residual into not-yet-visited neighbours.

use crate::palette::nearest_idx;
use crate::palette::Palette;
use crate::palette::PaletteEntry;
use crate::raster::Raster;
use vstd::arithmetic::div_mod::lemma_div_is_ordered;
use vstd::arithmetic::div_mod::lemma_div_pos_is_pos;
use vstd::arithmetic::div_mod::lemma_fundamental_div_mod;
use vstd::arithmetic::div_mod::lemma_fundamental_div_mod_converse;
use vstd::arithmetic::div_mod::lemma_mod_bound;
use vstd::prelude::*;

verus! {

/// `v + d` saturated into the 0..=255 sample range: clamped, never wrapped.
pub open spec fn sat_add_sample(v: int, d: int) -> int {
    if v + d < 0 {
        0
    } else if v + d > 255 {
        255
    } else {
        v + d
    }
}

/// The share `e * num / 16` of a residual `e`, truncated toward zero.
pub open spec fn weight_share(e: int, num: int) -> int {
    if e >= 0 {
        (e * num) / 16
    } else {
        -((-e * num) / 16)
    }
}

/// Adds `d` to the sample at `idx`, saturating into 0..=255.
pub open spec fn diffuse_at(s: Seq<u8>, idx: int, d: int) -> Seq<u8> {
    s.update(idx, sat_add_sample(s[idx] as int, d) as u8)
}

/// The brightness the palette quantizes `v` to: that of the nearest entry.
pub open spec fn quantized(pal: Seq<PaletteEntry>, v: int) -> int {
    pal[nearest_idx(pal, v)].brightness as int
}

/// One dithering step at row-major cell `i` of a `w x h` raster: quantize the
/// cell, then add the residual's weighted shares (7/16, 3/16, 5/16, 1/16,
/// each truncated toward zero) to the unvisited neighbours, skipping targets
/// that fall outside the raster. Two behaviours of the transcription format
/// are kept deliberately: the 1/16 share lands on the cell directly below, on
/// top of the 5/16 share, rather than on the diagonal-right neighbour; and in
/// column 0 the diagonal-left target collapses onto column 0 itself.
pub open spec fn dither_step(
    s: Seq<u8>,
    w: int,
    h: int,
    pal: Seq<PaletteEntry>,
    i: int,
) -> Seq<u8> {
    let x = i % w;
    let y = i / w;
    let v = s[i] as int;
    let q = quantized(pal, v);
    let e = v - q;
    let s0 = s.update(i, q as u8);
    let s1 = if x + 1 < w {
        diffuse_at(s0, i + 1, weight_share(e, 7))
    } else {
        s0
    };
    let xl = if x == 0 {
        0
    } else {
        x - 1
    };
    let s2 = if y + 1 < h {
        diffuse_at(s1, (y + 1) * w + xl, weight_share(e, 3))
    } else {
        s1
    };
    let s3 = if y + 1 < h {
        diffuse_at(s2, (y + 1) * w + x, weight_share(e, 5))
    } else {
        s2
    };
    if y + 1 < h {
        diffuse_at(s3, (y + 1) * w + x, weight_share(e, 1))
    } else {
        s3
    }
}

/// The raster after the first `n` dithering steps, taken in row-major order.
pub open spec fn dither_prefix(
    s: Seq<u8>,
    w: int,
    h: int,
    pal: Seq<PaletteEntry>,
    n: int,
) -> Seq<u8>
    decreases n,
{
    if n <= 0 {
        s
    } else {
        dither_step(dither_prefix(s, w, h, pal, n - 1), w, h, pal, n - 1)
    }
}

/// The glyph recorded for cell `i`: that of the palette entry nearest to the
/// cell's already-diffused value at the moment step `i` runs.
pub open spec fn dither_glyph(s: Seq<u8>, w: int, h: int, pal: Seq<PaletteEntry>, i: int) -> char {
    pal[nearest_idx(pal, dither_prefix(s, w, h, pal, i)[i] as int)].glyph
}

/// Saturation never wraps: whatever residual share arrives, the adjusted
/// sample stays a valid brightness.
pub proof fn lemma_sat_add_in_range(v: int, d: int)
    ensures
        0 <= sat_add_sample(v, d) <= 255,
{
}

/// `v + d` clamped into the sample range.
fn sat_add_exec(v: u8, d: i32) -> (r: u8)
    requires
        -1000 <= d <= 1000,
    ensures
        r as int == sat_add_sample(v as int, d as int),
{
    let sum = v as i32 + d;
    if sum < 0 {
        0
    } else if sum > 255 {
        255
    } else {
        sum as u8
    }
}

/// The truncated share `e * num / 16`, computed on the magnitude of `e` so
/// that the division truncates toward zero.
fn weight_share_exec(e: i32, num: u32) -> (r: i32)
    requires
        -255 <= e <= 255,
        1 <= num <= 7,
    ensures
        r == weight_share(e as int, num as int),
        -112 <= r <= 112,
{
    proof {
        assert(255 * num <= 1785) by (nonlinear_arith)
            requires
                num <= 7,
        ;
        lemma_div_is_ordered(255 * num as int, 1785, 16);
    }
    if e >= 0 {
        proof {
            assert(e * num <= 255 * num) by (nonlinear_arith)
                requires
                    0 <= e <= 255,
                    0 <= num,
            ;
            lemma_div_is_ordered(e as int * num as int, 255 * num as int, 16);
        }
        ((e as u32 * num) / 16) as i32
    } else {
        let m = (0 - e) as u32;
        proof {
            assert(m * num <= 255 * num) by (nonlinear_arith)
                requires
                    0 <= m <= 255,
                    0 <= num,
            ;
            lemma_div_is_ordered(m as int * num as int, 255 * num as int, 16);
        }
        0 - (((m * num) / 16) as i32)
    }
}

/// Adds a residual share to the in-bounds cell `(x, y)`, saturating.
fn apply_diffusion(r: &mut Raster, x: usize, y: usize, d: i32)
    requires
        old(r).wf(),
        x < old(r).spec_width(),
        y < old(r).spec_height(),
        -1000 <= d <= 1000,
    ensures
        final(r).wf(),
        final(r).spec_width() == old(r).spec_width(),
        final(r).spec_height() == old(r).spec_height(),
        final(r)@ == diffuse_at(old(r)@, y * old(r).spec_width() + x, d as int),
{
    let v = r.get(x, y);
    let nv = sat_add_exec(v, d);
    r.set(x, y, nv);
}

/// Dithers `raster` in place in strict row-major order and returns the glyph
/// grid: cell `(x, y)` of the grid holds the glyph chosen for that cell, and
/// the raster cell is overwritten with the chosen entry's brightness before
/// the residual is diffused onward.
pub fn dither(raster: &mut Raster, palette: &Palette) -> (grid: Vec<Vec<char>>)
    requires
        old(raster).wf(),
        palette.wf(),
    ensures
        final(raster).wf(),
        final(raster).spec_width() == old(raster).spec_width(),
        final(raster).spec_height() == old(raster).spec_height(),
        final(raster)@ == dither_prefix(
            old(raster)@,
            old(raster).spec_width(),
            old(raster).spec_height(),
            palette@,
            old(raster).spec_width() * old(raster).spec_height(),
        ),
        grid@.len() == old(raster).spec_height(),
        forall|y: int| 0 <= y < grid@.len() ==> (#[trigger] grid@[y])@.len() == old(
            raster,
        ).spec_width(),
        forall|y: int, x: int|
            0 <= y < grid@.len() && 0 <= x < old(raster).spec_width() ==> #[trigger] grid@[y]@[x]
                == dither_glyph(
                old(raster)@,
                old(raster).spec_width(),
                old(raster).spec_height(),
                palette@,
                y * old(raster).spec_width() + x,
            ),
{
    let w = raster.width();
    let h = raster.height();
    let ghost s0 = raster@;
    let ghost gw = w as int;
    let ghost gh = h as int;
    let mut grid: Vec<Vec<char>> = Vec::new();
    let mut y: usize = 0;
    while y < h
        invariant
            raster.wf(),
            palette.wf(),
            raster.spec_width() == gw,
            raster.spec_height() == gh,
            w == gw,
            h == gh,
            y <= h,
            s0.len() == gw * gh,
            raster@ == dither_prefix(s0, gw, gh, palette@, y * gw),
            grid@.len() == y,
            forall|yy: int| 0 <= yy < y ==> (#[trigger] grid@[yy])@.len() == gw,
            forall|yy: int, xx: int|
                0 <= yy < y && 0 <= xx < gw ==> #[trigger] grid@[yy]@[xx] == dither_glyph(
                    s0,
                    gw,
                    gh,
                    palette@,
                    yy * gw + xx,
                ),
        decreases h - y,
    {
        proof {
            assert(y * gw + gw <= gh * gw && gh * gw == gw * gh) by (nonlinear_arith)
                requires
                    y + 1 <= gh,
                    0 <= gw,
            ;
        }
        let mut row: Vec<char> = Vec::new();
        let mut x: usize = 0;
        while x < w
            invariant
                raster.wf(),
                palette.wf(),
                raster.spec_width() == gw,
                raster.spec_height() == gh,
                w == gw,
                h == gh,
                x <= w,
                y < h,
                y * gw + gw <= gw * gh,
                s0.len() == gw * gh,
                raster@ == dither_prefix(s0, gw, gh, palette@, y * gw + x),
                row@.len() == x,
                forall|xx: int|
                    0 <= xx < x ==> row@[xx] == dither_glyph(s0, gw, gh, palette@, y * gw + xx),
            decreases w - x,
        {
            let ghost pre = raster@;
            let ghost i = y * gw + x;
            let v = raster.get(x, y);
            let (glyph, q) = palette.nearest(v as i32);
            raster.set(x, y, q);
            let e = v as i32 - q as i32;
            if x + 1 < w {
                let d7 = weight_share_exec(e, 7);
                apply_diffusion(raster, x + 1, y, d7);
            }
            if y + 1 < h {
                let xl = if x == 0 {
                    0
                } else {
                    x - 1
                };
                let d3 = weight_share_exec(e, 3);
                apply_diffusion(raster, xl, y + 1, d3);
                let d5 = weight_share_exec(e, 5);
                apply_diffusion(raster, x, y + 1, d5);
                let d1 = weight_share_exec(e, 1);
                apply_diffusion(raster, x, y + 1, d1);
            }
            row.push(glyph);
            proof {
                lemma_fundamental_div_mod_converse(i, gw, y as int, x as int);
                assert(raster@ =~= dither_step(pre, gw, gh, palette@, i));
            }
            x = x + 1;
        }
        grid.push(row);
        proof {
            assert((y + 1) * gw == y * gw + gw) by (nonlinear_arith);
        }
        y = y + 1;
    }
    proof {
        assert(gh * gw == gw * gh) by (nonlinear_arith);
    }
    grid
}

/// Sum of all samples of a raster view.
pub open spec fn sample_sum(s: Seq<u8>) -> int
    decreases s.len(),
{
    if s.len() == 0 {
        0
    } else {
        sample_sum(s.drop_last()) + s.last()
    }
}

proof fn lemma_sum_update(s: Seq<u8>, i: int, v: u8)
    requires
        0 <= i < s.len(),
    ensures
        sample_sum(s.update(i, v)) == sample_sum(s) - s[i] + v,
    decreases s.len(),
{
    if i == s.len() - 1 {
        assert(s.update(i, v).drop_last() =~= s.drop_last());
        assert(s.update(i, v).last() == v);
    } else {
        assert(s.update(i, v).drop_last() =~= s.drop_last().update(i, v));
        lemma_sum_update(s.drop_last(), i, v);
        assert(s.update(i, v).last() == s.last());
    }
}

proof fn lemma_cell_coords(i: int, w: int, h: int)
    requires
        w >= 1,
        h >= 1,
        0 <= i < w * h,
    ensures
        0 <= i % w < w,
        0 <= i / w < h,
        (i / w) * w + (i % w) == i,
{
    lemma_fundamental_div_mod(i, w);
    lemma_mod_bound(i, w);
    lemma_div_pos_is_pos(i, w);
    if i / w >= h {
        assert(w * (i / w) >= w * h) by (nonlinear_arith)
            requires
                i / w >= h,
                w >= 1,
        ;
        assert(false);
    }
    assert((i / w) * w == w * (i / w)) by (nonlinear_arith);
}

/// The four weighted shares together recover the residual up to a truncation
/// defect of at most 3 units, always toward zero.
pub proof fn lemma_weight_shares_close(e: int)
    requires
        -255 <= e <= 255,
    ensures
        ({
            let total = weight_share(e, 7) + weight_share(e, 3) + weight_share(e, 5)
                + weight_share(e, 1);
            &&& e >= 0 ==> 0 <= e - total <= 3
            &&& e < 0 ==> -3 <= e - total <= 0
        }),
{
    if e >= 0 {
        lemma_fundamental_div_mod(e * 7, 16);
        lemma_mod_bound(e * 7, 16);
        lemma_fundamental_div_mod(e * 3, 16);
        lemma_mod_bound(e * 3, 16);
        lemma_fundamental_div_mod(e * 5, 16);
        lemma_mod_bound(e * 5, 16);
        lemma_fundamental_div_mod(e * 1, 16);
        lemma_mod_bound(e * 1, 16);
        assert(e * 7 + e * 3 + e * 5 + e * 1 == 16 * e);
    } else {
        let m = -e;
        lemma_fundamental_div_mod(m * 7, 16);
        lemma_mod_bound(m * 7, 16);
        lemma_fundamental_div_mod(m * 3, 16);
        lemma_mod_bound(m * 3, 16);
        lemma_fundamental_div_mod(m * 5, 16);
        lemma_mod_bound(m * 5, 16);
        lemma_fundamental_div_mod(m * 1, 16);
        lemma_mod_bound(m * 1, 16);
        assert(m * 7 + m * 3 + m * 5 + m * 1 == 16 * m);
    }
}

/// The residual shares that step `i` would send to targets outside the
/// raster: they are skipped, lost at the right or bottom boundary.
pub open spec fn step_boundary_loss(
    s: Seq<u8>,
    w: int,
    h: int,
    pal: Seq<PaletteEntry>,
    i: int,
) -> int {
    let x = i % w;
    let y = i / w;
    let v = s[i] as int;
    let e = v - quantized(pal, v);
    (if x + 1 < w {
        0
    } else {
        weight_share(e, 7)
    }) + (if y + 1 < h {
        0
    } else {
        weight_share(e, 3) + weight_share(e, 5) + weight_share(e, 1)
    })
}

/// No share saturates during step `i`: every in-bounds target sample stays
/// within 0..=255 after its share is added.
pub open spec fn step_no_clamp(s: Seq<u8>, w: int, h: int, pal: Seq<PaletteEntry>, i: int) -> bool {
    let x = i % w;
    let y = i / w;
    let v = s[i] as int;
    let q = quantized(pal, v);
    let e = v - q;
    let s0 = s.update(i, q as u8);
    let s1 = if x + 1 < w {
        diffuse_at(s0, i + 1, weight_share(e, 7))
    } else {
        s0
    };
    let xl = if x == 0 {
        0
    } else {
        x - 1
    };
    let s2 = if y + 1 < h {
        diffuse_at(s1, (y + 1) * w + xl, weight_share(e, 3))
    } else {
        s1
    };
    let s3 = if y + 1 < h {
        diffuse_at(s2, (y + 1) * w + x, weight_share(e, 5))
    } else {
        s2
    };
    &&& (x + 1 < w ==> 0 <= s0[i + 1] + weight_share(e, 7) <= 255)
    &&& (y + 1 < h ==> 0 <= s1[(y + 1) * w + xl] + weight_share(e, 3) <= 255)
    &&& (y + 1 < h ==> 0 <= s2[(y + 1) * w + x] + weight_share(e, 5) <= 255)
    &&& (y + 1 < h ==> 0 <= s3[(y + 1) * w + x] + weight_share(e, 1) <= 255)
}

proof fn lemma_step_indices(i: int, w: int, h: int)
    requires
        w >= 1,
        h >= 1,
        0 <= i < w * h,
    ensures
        i % w + 1 < w ==> 0 <= i + 1 < w * h,
        i / w + 1 < h ==> ((i / w + 1) * w + (if i % w == 0 {
            0int
        } else {
            i % w - 1
        }) < w * h && (i / w + 1) * w + i % w < w * h && 0 <= (i / w + 1) * w),
{
    lemma_cell_coords(i, w, h);
    let x = i % w;
    let y = i / w;
    if y + 1 < h {
        assert((y + 1) * w + x < (y + 2) * w && (y + 2) * w <= h * w && h * w == w * h && 0 <= (y
            + 1) * w) by (nonlinear_arith)
            requires
                0 <= x < w,
                0 <= y,
                y + 2 <= h,
        ;
    }
    if x + 1 < w {
        assert(y * w + x + 1 < (y + 1) * w && (y + 1) * w <= h * w && h * w == w * h)
            by (nonlinear_arith)
            requires
                0 <= x,
                x + 1 < w,
                0 <= y,
                y + 1 <= h,
        ;
    }
}

proof fn lemma_dither_step_len(s: Seq<u8>, w: int, h: int, pal: Seq<PaletteEntry>, i: int)
    requires
        w >= 1,
        h >= 1,
        s.len() == w * h,
        0 <= i < w * h,
    ensures
        dither_step(s, w, h, pal, i).len() == w * h,
{
    lemma_cell_coords(i, w, h);
    lemma_step_indices(i, w, h);
}

proof fn lemma_dither_prefix_len(s0: Seq<u8>, w: int, h: int, pal: Seq<PaletteEntry>, n: int)
    requires
        w >= 1,
        h >= 1,
        s0.len() == w * h,
        0 <= n <= w * h,
    ensures
        dither_prefix(s0, w, h, pal, n).len() == w * h,
    decreases n,
{
    if n > 0 {
        lemma_dither_prefix_len(s0, w, h, pal, n - 1);
        lemma_dither_step_len(dither_prefix(s0, w, h, pal, n - 1), w, h, pal, n - 1);
    }
}

proof fn lemma_step_sum(s: Seq<u8>, w: int, h: int, pal: Seq<PaletteEntry>, i: int)
    requires
        w >= 1,
        h >= 1,
        s.len() == w * h,
        0 <= i < w * h,
        step_no_clamp(s, w, h, pal, i),
    ensures
        ({
            let v = s[i] as int;
            let e = v - quantized(pal, v);
            sample_sum(dither_step(s, w, h, pal, i)) == sample_sum(s) - e + (weight_share(e, 7)
                + weight_share(e, 3) + weight_share(e, 5) + weight_share(e, 1))
                - step_boundary_loss(s, w, h, pal, i)
        }),
{
    lemma_cell_coords(i, w, h);
    lemma_step_indices(i, w, h);
    let x = i % w;
    let y = i / w;
    let v = s[i] as int;
    let q = quantized(pal, v);
    let e = v - q;
    let s0 = s.update(i, q as u8);
    lemma_sum_update(s, i, q as u8);
    let s1 = if x + 1 < w {
        diffuse_at(s0, i + 1, weight_share(e, 7))
    } else {
        s0
    };
    if x + 1 < w {
        lemma_sum_update(s0, i + 1, sat_add_sample(s0[i + 1] as int, weight_share(e, 7)) as u8);
    }
    let xl = if x == 0 {
        0
    } else {
        x - 1
    };
    let s2 = if y + 1 < h {
        diffuse_at(s1, (y + 1) * w + xl, weight_share(e, 3))
    } else {
        s1
    };
    let s3 = if y + 1 < h {
        diffuse_at(s2, (y + 1) * w + x, weight_share(e, 5))
    } else {
        s2
    };
    if y + 1 < h {
        lemma_sum_update(
            s1,
            (y + 1) * w + xl,
            sat_add_sample(s1[(y + 1) * w + xl] as int, weight_share(e, 3)) as u8,
        );
        lemma_sum_update(
            s2,
            (y + 1) * w + x,
            sat_add_sample(s2[(y + 1) * w + x] as int, weight_share(e, 5)) as u8,
        );
        lemma_sum_update(
            s3,
            (y + 1) * w + x,
            sat_add_sample(s3[(y + 1) * w + x] as int, weight_share(e, 1)) as u8,
        );
    }
}

/// Whether no share saturates during any of the first `n` steps.
pub open spec fn no_clamp_upto(s0: Seq<u8>, w: int, h: int, pal: Seq<PaletteEntry>, n: int) -> bool
    decreases n,
{
    n <= 0 || (no_clamp_upto(s0, w, h, pal, n - 1) && step_no_clamp(
        dither_prefix(s0, w, h, pal, n - 1),
        w,
        h,
        pal,
        n - 1,
    ))
}

/// The residual shares lost at the raster boundary over the first `n` steps.
pub open spec fn boundary_loss_upto(
    s0: Seq<u8>,
    w: int,
    h: int,
    pal: Seq<PaletteEntry>,
    n: int,
) -> int
    decreases n,
{
    if n <= 0 {
        0
    } else {
        boundary_loss_upto(s0, w, h, pal, n - 1) + step_boundary_loss(
            dither_prefix(s0, w, h, pal, n - 1),
            w,
            h,
            pal,
            n - 1,
        )
    }
}

/// Dithering approximately preserves total brightness. Over the first `n`
/// steps, as long as no share saturates, the sum of the raster's samples plus
/// the residual shares lost at the right and bottom boundaries tracks the
/// original sum within 3 units per processed cell (the defect each step can
/// lose to truncating the four weighted shares): no unbounded drift.
pub proof fn lemma_dither_brightness_bounded(
    s0: Seq<u8>,
    w: int,
    h: int,
    pal: Seq<PaletteEntry>,
    n: int,
)
    requires
        w >= 1,
        h >= 1,
        s0.len() == w * h,
        pal.len() > 0,
        0 <= n <= w * h,
        no_clamp_upto(s0, w, h, pal, n),
    ensures
        -3 * n <= sample_sum(s0) - sample_sum(dither_prefix(s0, w, h, pal, n)) - boundary_loss_upto(
            s0,
            w,
            h,
            pal,
            n,
        ) <= 3 * n,
    decreases n,
{
    if n > 0 {
        lemma_dither_brightness_bounded(s0, w, h, pal, n - 1);
        let sp = dither_prefix(s0, w, h, pal, n - 1);
        lemma_dither_prefix_len(s0, w, h, pal, n - 1);
        lemma_step_sum(sp, w, h, pal, n - 1);
        let v = sp[n - 1] as int;
        let e = v - quantized(pal, v);
        lemma_weight_shares_close(e);
    }
}

} // verus!
