//! Separable box-blur passes over a row-major RGB buffer, and the
//! three-pass pipeline that approximates a Gaussian blur.
//!
//! Every pixel is a `[u8; 3]` triple of channel values.  Contracts speak
//! about one channel at a time: `plane` projects a buffer onto one channel,
//! and each pass maps every plane through the same pure function, so the
//! three channels are blurred identically and independently.

use vstd::prelude::*;
use vstd::arithmetic::div_mod::{
    lemma_fundamental_div_mod, lemma_fundamental_div_mod_converse, lemma_div_denominator,
};
use vstd::arithmetic::mul::lemma_mul_inequality;
use crate::planner::{Sigma, plan_radius, create_box_gauss};
use rayon::prelude::ParallelIterator;
use rayon::prelude::IndexedParallelIterator;
use rayon::prelude::ParallelSlice;
use rayon::prelude::ParallelSliceMut;

verus! {

/// Channel `c` of every pixel of `buf`, in buffer order.
pub open spec fn plane(buf: Seq<[u8; 3]>, c: int) -> Seq<u8> {
    Seq::new(buf.len(), |k: int| buf[k]@[c])
}

/// Clamp an index to `[0, n)`: out-of-range window positions take the value
/// of the nearest edge pixel (edge replication).
pub open spec fn clip(j: int, n: int) -> int {
    if j < 0 {
        0
    } else if j >= n {
        n - 1
    } else {
        j
    }
}

/// Sum of `s[clip(j)]` for `j` in `lo ..= hi` (the sliding window's total).
pub open spec fn wsum(s: Seq<u8>, lo: int, hi: int) -> int
    decreases hi + 1 - lo,
{
    if lo > hi {
        0
    } else {
        s[clip(lo, s.len() as int)] + wsum(s, lo + 1, hi)
    }
}

/// `sum / (2r + 1)` rounded to the nearest integer.  The divisor is odd, so
/// no exact tie can arise and every correct rounding agrees with this one.
pub open spec fn rnd_avg(sum: int, r: int) -> int {
    (2 * sum + (2 * r + 1)) / (2 * (2 * r + 1))
}

/// The blurred value at position `i` of line `s`: the rounded average of the
/// window `i - r ..= i + r`, edges replicated.
pub open spec fn line_px(s: Seq<u8>, r: int, i: int) -> int {
    rnd_avg(wsum(s, i - r, i + r), r)
}

/// One-dimensional box blur of a whole line.
pub open spec fn blur_line(s: Seq<u8>, r: int) -> Seq<u8> {
    Seq::new(s.len(), |i: int| line_px(s, r, i) as u8)
}

/// Row `y` of a `w`-wide plane.
pub open spec fn row_of(pl: Seq<u8>, w: int, y: int) -> Seq<u8> {
    pl.subrange(y * w, y * w + w)
}

/// Column `x` of a `w`-wide, `h`-high plane.
pub open spec fn col_of(pl: Seq<u8>, w: int, h: int, x: int) -> Seq<u8> {
    Seq::new(h as nat, |y: int| pl[y * w + x])
}

/// Horizontal pass: every row blurred with radius `r`.
pub open spec fn horz_blur(pl: Seq<u8>, w: int, h: int, r: int) -> Seq<u8> {
    Seq::new(pl.len(), |k: int| blur_line(row_of(pl, w, k / w), r)[k % w])
}

/// Vertical pass: every column blurred with radius `r`.
pub open spec fn vert_blur(pl: Seq<u8>, w: int, h: int, r: int) -> Seq<u8> {
    Seq::new(pl.len(), |k: int| blur_line(col_of(pl, w, h, k % w), r)[k / w])
}

/// One full box-blur pass: horizontal first, then vertical.
pub open spec fn blur_pass(pl: Seq<u8>, w: int, h: int, r: int) -> Seq<u8> {
    vert_blur(horz_blur(pl, w, h, r), w, h, r)
}

// ---------------------------------------------------------------------------
// Facts about window sums.
// ---------------------------------------------------------------------------

pub proof fn lemma_wsum_bounds(s: Seq<u8>, lo: int, hi: int)
    requires
        s.len() >= 1,
        lo <= hi + 1,
    ensures
        0 <= wsum(s, lo, hi),
        wsum(s, lo, hi) <= 255 * (hi + 1 - lo),
    decreases hi + 1 - lo,
{
    if lo > hi {
    } else {
        lemma_wsum_bounds(s, lo + 1, hi);
        assert(wsum(s, lo, hi) == s[clip(lo, s.len() as int)] + wsum(s, lo + 1, hi));
        assert(s[clip(lo, s.len() as int)] <= 255);
        assert(255 * (hi + 1 - lo) == 255 * (hi - lo) + 255) by (nonlinear_arith);
    }
}

pub proof fn lemma_wsum_unfold_right(s: Seq<u8>, lo: int, hi: int)
    requires
        lo <= hi,
    ensures
        wsum(s, lo, hi) == wsum(s, lo, hi - 1) + s[clip(hi, s.len() as int)],
    decreases hi - lo,
{
    if lo == hi {
        assert(wsum(s, lo, hi - 1) == 0);
        assert(wsum(s, lo, hi) == s[clip(lo, s.len() as int)] + wsum(s, lo + 1, hi));
    } else {
        lemma_wsum_unfold_right(s, lo + 1, hi);
        assert(wsum(s, lo, hi) == s[clip(lo, s.len() as int)] + wsum(s, lo + 1, hi));
        assert(wsum(s, lo, hi - 1) == s[clip(lo, s.len() as int)] + wsum(s, lo + 1, hi - 1));
    }
}

/// Sliding the window one step right adds the entering element and removes
/// the leaving one.
pub proof fn lemma_wsum_slide(s: Seq<u8>, lo: int, hi: int)
    requires
        lo <= hi,
    ensures
        wsum(s, lo + 1, hi + 1) == wsum(s, lo, hi) + s[clip(hi + 1, s.len() as int)] - s[clip(
            lo,
            s.len() as int,
        )],
{
    lemma_wsum_unfold_right(s, lo + 1, hi + 1);
}

/// The first element of the window never exceeds the whole sum.
pub proof fn lemma_wsum_head_le(s: Seq<u8>, lo: int, hi: int)
    requires
        lo <= hi,
        s.len() >= 1,
    ensures
        s[clip(lo, s.len() as int)] <= wsum(s, lo, hi),
{
    lemma_wsum_bounds(s, lo + 1, hi);
}

/// A window that lies entirely left of the line sums to copies of `s[0]`.
pub proof fn lemma_wsum_all_low(s: Seq<u8>, lo: int, hi: int)
    requires
        hi < 0,
        s.len() >= 1,
    ensures
        wsum(s, lo, hi) == (if lo > hi { 0 } else { (hi + 1 - lo) * s[0] }),
    decreases hi + 1 - lo,
{
    if lo > hi {
    } else {
        lemma_wsum_all_low(s, lo + 1, hi);
        let x = s[0] as int;
        assert(wsum(s, lo + 1, hi) == (if lo + 1 > hi { 0int } else { (hi - lo) * x }));
        assert((hi + 1 - lo) * x == (hi - lo) * x + x) by (nonlinear_arith);
        assert(clip(lo, s.len() as int) == 0);
    }
}

/// The rounded average of a window sum over `2 * radius + 1` values.
fn emit_avg(val: u128, radius: usize) -> (e: u8)
    requires
        val <= 255 * (2 * (radius as int) + 1),
    ensures
        e as int == rnd_avg(val as int, radius as int),
{
    let d: u128 = 2 * (radius as u128) + 1;
    let q: u128 = (2 * val + d) / (2 * d);
    proof {
        let dd = d as int;
        vstd::arithmetic::div_mod::lemma_div_is_ordered(
            2 * (val as int) + dd,
            511 * dd,
            2 * dd,
        );
        lemma_div_denominator(511 * dd, dd, 2);
        vstd::arithmetic::div_mod::lemma_div_by_multiple(511, dd);
    }
    assert(q <= 255);
    q as u8
}

/// Blur every row of `backbuf` with radius `blur_radius` into `frontbuf`,
/// using a sliding-window running sum per channel: the window total changes
/// by one entering and one leaving value per emitted pixel.
#[verifier::loop_isolation(false)]
#[verifier::rlimit(100)]
pub fn box_blur_horz(
    backbuf: &Vec<[u8; 3]>,
    frontbuf: &mut Vec<[u8; 3]>,
    width: usize,
    height: usize,
    blur_radius: usize,
)
    requires
        1 <= width,
        1 <= height,
        backbuf.len() == width * height,
        old(frontbuf).len() == width * height,
        2 * blur_radius < width,
    ensures
        final(frontbuf).len() == width * height,
        forall|c: int|
            0 <= c < 3 ==> plane(final(frontbuf)@, c) == horz_blur(
                plane(backbuf@, c),
                width as int,
                height as int,
                blur_radius as int,
            ),
{
    let ghost w = width as int;
    let ghost h = height as int;
    let ghost r = blur_radius as int;
    let mut y: usize = 0;
    let mut base: usize = 0;
    while y < height
        invariant
            y <= height,
            base == y * width,
            frontbuf.len() == width * height,
            forall|c: int, k: int|
                0 <= c < 3 && 0 <= k < base ==> frontbuf@[k]@[c] == horz_blur(
                    plane(backbuf@, c),
                    w,
                    h,
                    r,
                )[k],
        decreases height - y,
    {
        proof {
            assert((y + 1) * w == y * w + w) by (nonlinear_arith);
            lemma_mul_inequality(y as int + 1, h, w);
            assert(base + width <= width * height);
        }
        let ghost row0 = row_of(plane(backbuf@, 0), w, y as int);
        let ghost row1 = row_of(plane(backbuf@, 1), w, y as int);
        let ghost row2 = row_of(plane(backbuf@, 2), w, y as int);
        let fv: [u8; 3] = backbuf[base];
        let lv: [u8; 3] = backbuf[base + width - 1];
        let f0 = fv[0];
        let f1 = fv[1];
        let f2 = fv[2];
        let l0 = lv[0];
        let l1 = lv[1];
        let l2 = lv[2];
        proof {
            lemma_wsum_all_low(row0, -1 - r, -1);
            lemma_wsum_all_low(row1, -1 - r, -1);
            lemma_wsum_all_low(row2, -1 - r, -1);
            vstd::arithmetic::mul::lemma_mul_upper_bound(
                r + 1,
                0x1_0000_0000_0000_0000,
                f0 as int,
                255,
            );
            vstd::arithmetic::mul::lemma_mul_upper_bound(
                r + 1,
                0x1_0000_0000_0000_0000,
                f1 as int,
                255,
            );
            vstd::arithmetic::mul::lemma_mul_upper_bound(
                r + 1,
                0x1_0000_0000_0000_0000,
                f2 as int,
                255,
            );
        }
        let mut vr: u128 = (blur_radius as u128 + 1) * (f0 as u128);
        let mut vg: u128 = (blur_radius as u128 + 1) * (f1 as u128);
        let mut vb: u128 = (blur_radius as u128 + 1) * (f2 as u128);
        let mut j: usize = 0;
        while j < blur_radius
            invariant
                j <= blur_radius,
                vr == wsum(row0, -1 - r, j - 1),
                vg == wsum(row1, -1 - r, j - 1),
                vb == wsum(row2, -1 - r, j - 1),
            decreases blur_radius - j,
        {
            proof {
                lemma_wsum_bounds(row0, -1 - r, j - 1);
                lemma_wsum_bounds(row1, -1 - r, j - 1);
                lemma_wsum_bounds(row2, -1 - r, j - 1);
                lemma_wsum_unfold_right(row0, -1 - r, j as int);
                lemma_wsum_unfold_right(row1, -1 - r, j as int);
                lemma_wsum_unfold_right(row2, -1 - r, j as int);
            }
            let bb: [u8; 3] = backbuf[base + j];
            vr = vr + (bb[0] as u128);
            vg = vg + (bb[1] as u128);
            vb = vb + (bb[2] as u128);
            j = j + 1;
        }
        let mut t: usize = 0;
        while t <= blur_radius
            invariant
                t <= blur_radius + 1,
                vr == wsum(row0, t - 1 - r, t - 1 + r),
                vg == wsum(row1, t - 1 - r, t - 1 + r),
                vb == wsum(row2, t - 1 - r, t - 1 + r),
                frontbuf.len() == width * height,
                forall|c: int, k: int|
                    0 <= c < 3 && 0 <= k < base + t ==> frontbuf@[k]@[c] == horz_blur(
                        plane(backbuf@, c),
                        w,
                        h,
                        r,
                    )[k],
        decreases blur_radius + 1 - t,
        {
            proof {
                lemma_wsum_slide(row0, t - 1 - r, t - 1 + r);
                lemma_wsum_slide(row1, t - 1 - r, t - 1 + r);
                lemma_wsum_slide(row2, t - 1 - r, t - 1 + r);
                lemma_wsum_head_le(row0, t - 1 - r, t - 1 + r);
                lemma_wsum_head_le(row1, t - 1 - r, t - 1 + r);
                lemma_wsum_head_le(row2, t - 1 - r, t - 1 + r);
                lemma_wsum_bounds(row0, t - r, t + r);
                lemma_wsum_bounds(row1, t - r, t + r);
                lemma_wsum_bounds(row2, t - r, t + r);
            }
            let bb: [u8; 3] = backbuf[base + t + blur_radius];
            vr = vr + (bb[0] as u128) - (f0 as u128);
            vg = vg + (bb[1] as u128) - (f1 as u128);
            vb = vb + (bb[2] as u128) - (f2 as u128);
            let er = emit_avg(vr, blur_radius);
            let eg = emit_avg(vg, blur_radius);
            let eb = emit_avg(vb, blur_radius);
            frontbuf[base + t] = [er, eg, eb];
            proof {
                lemma_fundamental_div_mod_converse((base + t) as int, w, y as int, t as int);
            }
            t = t + 1;
        }
        while t < width - blur_radius
            invariant
                blur_radius + 1 <= t <= width - blur_radius,
                vr == wsum(row0, t - 1 - r, t - 1 + r),
                vg == wsum(row1, t - 1 - r, t - 1 + r),
                vb == wsum(row2, t - 1 - r, t - 1 + r),
                frontbuf.len() == width * height,
                forall|c: int, k: int|
                    0 <= c < 3 && 0 <= k < base + t ==> frontbuf@[k]@[c] == horz_blur(
                        plane(backbuf@, c),
                        w,
                        h,
                        r,
                    )[k],
        decreases width - t,
        {
            proof {
                lemma_wsum_slide(row0, t - 1 - r, t - 1 + r);
                lemma_wsum_slide(row1, t - 1 - r, t - 1 + r);
                lemma_wsum_slide(row2, t - 1 - r, t - 1 + r);
                lemma_wsum_head_le(row0, t - 1 - r, t - 1 + r);
                lemma_wsum_head_le(row1, t - 1 - r, t - 1 + r);
                lemma_wsum_head_le(row2, t - 1 - r, t - 1 + r);
                lemma_wsum_bounds(row0, t - r, t + r);
                lemma_wsum_bounds(row1, t - r, t + r);
                lemma_wsum_bounds(row2, t - r, t + r);
            }
            let bb1: [u8; 3] = backbuf[base + t + blur_radius];
            let bb2: [u8; 3] = backbuf[base + t - blur_radius - 1];
            vr = vr + (bb1[0] as u128) - (bb2[0] as u128);
            vg = vg + (bb1[1] as u128) - (bb2[1] as u128);
            vb = vb + (bb1[2] as u128) - (bb2[2] as u128);
            let er = emit_avg(vr, blur_radius);
            let eg = emit_avg(vg, blur_radius);
            let eb = emit_avg(vb, blur_radius);
            frontbuf[base + t] = [er, eg, eb];
            proof {
                lemma_fundamental_div_mod_converse((base + t) as int, w, y as int, t as int);
            }
            t = t + 1;
        }
        while t < width
            invariant
                width - blur_radius <= t <= width,
                vr == wsum(row0, t - 1 - r, t - 1 + r),
                vg == wsum(row1, t - 1 - r, t - 1 + r),
                vb == wsum(row2, t - 1 - r, t - 1 + r),
                frontbuf.len() == width * height,
                forall|c: int, k: int|
                    0 <= c < 3 && 0 <= k < base + t ==> frontbuf@[k]@[c] == horz_blur(
                        plane(backbuf@, c),
                        w,
                        h,
                        r,
                    )[k],
        decreases width - t,
        {
            proof {
                lemma_wsum_slide(row0, t - 1 - r, t - 1 + r);
                lemma_wsum_slide(row1, t - 1 - r, t - 1 + r);
                lemma_wsum_slide(row2, t - 1 - r, t - 1 + r);
                lemma_wsum_head_le(row0, t - 1 - r, t - 1 + r);
                lemma_wsum_head_le(row1, t - 1 - r, t - 1 + r);
                lemma_wsum_head_le(row2, t - 1 - r, t - 1 + r);
                lemma_wsum_bounds(row0, t - r, t + r);
                lemma_wsum_bounds(row1, t - r, t + r);
                lemma_wsum_bounds(row2, t - r, t + r);
            }
            let bb: [u8; 3] = backbuf[base + t - blur_radius - 1];
            vr = vr + (l0 as u128) - (bb[0] as u128);
            vg = vg + (l1 as u128) - (bb[1] as u128);
            vb = vb + (l2 as u128) - (bb[2] as u128);
            let er = emit_avg(vr, blur_radius);
            let eg = emit_avg(vg, blur_radius);
            let eb = emit_avg(vb, blur_radius);
            frontbuf[base + t] = [er, eg, eb];
            proof {
                lemma_fundamental_div_mod_converse((base + t) as int, w, y as int, t as int);
            }
            t = t + 1;
        }
        y = y + 1;
        base = base + width;
    }
    proof {
        assert(base == width * height) by (nonlinear_arith)
            requires base == y * width, y == height;
        assert forall|c: int| 0 <= c < 3 implies plane(frontbuf@, c) == horz_blur(
            plane(backbuf@, c),
            w,
            h,
            r,
        ) by {
            assert(plane(frontbuf@, c) =~= horz_blur(plane(backbuf@, c), w, h, r));
        }
    }
}

/// Blur every column of `backbuf` with radius `blur_radius` into `frontbuf`,
/// with the same sliding-window running sum as the horizontal pass, striding
/// by `width` instead of by one.
#[verifier::loop_isolation(false)]
#[verifier::rlimit(100)]
pub fn box_blur_vert(
    backbuf: &Vec<[u8; 3]>,
    frontbuf: &mut Vec<[u8; 3]>,
    width: usize,
    height: usize,
    blur_radius: usize,
)
    requires
        1 <= width,
        1 <= height,
        backbuf.len() == width * height,
        old(frontbuf).len() == width * height,
        2 * blur_radius < height,
    ensures
        final(frontbuf).len() == width * height,
        forall|c: int|
            0 <= c < 3 ==> plane(final(frontbuf)@, c) == vert_blur(
                plane(backbuf@, c),
                width as int,
                height as int,
                blur_radius as int,
            ),
{
    let ghost w = width as int;
    let ghost h = height as int;
    let ghost r = blur_radius as int;
    let mut x: usize = 0;
    while x < width
        invariant
            x <= width,
            frontbuf.len() == width * height,
            forall|c: int, k: int|
                0 <= c < 3 && 0 <= k < width * height && k % w < x ==> frontbuf@[k]@[c]
                    == vert_blur(plane(backbuf@, c), w, h, r)[k],
        decreases width - x,
    {
        proof {
            lemma_mul_inequality(h - 1, h, w);
            assert((h - 1) * w + w == h * w) by (nonlinear_arith);
        }
        let ghost col0 = col_of(plane(backbuf@, 0), w, h, x as int);
        let ghost col1 = col_of(plane(backbuf@, 1), w, h, x as int);
        let ghost col2 = col_of(plane(backbuf@, 2), w, h, x as int);
        let fv: [u8; 3] = backbuf[x];
        let lv: [u8; 3] = backbuf[x + (height - 1) * width];
        let f0 = fv[0];
        let f1 = fv[1];
        let f2 = fv[2];
        let l0 = lv[0];
        let l1 = lv[1];
        let l2 = lv[2];
        proof {
            lemma_wsum_all_low(col0, -1 - r, -1);
            lemma_wsum_all_low(col1, -1 - r, -1);
            lemma_wsum_all_low(col2, -1 - r, -1);
            vstd::arithmetic::mul::lemma_mul_upper_bound(
                r + 1,
                0x1_0000_0000_0000_0000,
                f0 as int,
                255,
            );
            vstd::arithmetic::mul::lemma_mul_upper_bound(
                r + 1,
                0x1_0000_0000_0000_0000,
                f1 as int,
                255,
            );
            vstd::arithmetic::mul::lemma_mul_upper_bound(
                r + 1,
                0x1_0000_0000_0000_0000,
                f2 as int,
                255,
            );
        }
        let mut vr: u128 = (blur_radius as u128 + 1) * (f0 as u128);
        let mut vg: u128 = (blur_radius as u128 + 1) * (f1 as u128);
        let mut vb: u128 = (blur_radius as u128 + 1) * (f2 as u128);
        let mut j: usize = 0;
        while j < blur_radius
            invariant
                j <= blur_radius,
                vr == wsum(col0, -1 - r, j - 1),
                vg == wsum(col1, -1 - r, j - 1),
                vb == wsum(col2, -1 - r, j - 1),
            decreases blur_radius - j,
        {
            proof {
                lemma_wsum_bounds(col0, -1 - r, j - 1);
                lemma_wsum_bounds(col1, -1 - r, j - 1);
                lemma_wsum_bounds(col2, -1 - r, j - 1);
                lemma_wsum_unfold_right(col0, -1 - r, j as int);
                lemma_wsum_unfold_right(col1, -1 - r, j as int);
                lemma_wsum_unfold_right(col2, -1 - r, j as int);
                lemma_mul_inequality(j as int, h - 1, w);
            }
            let bb: [u8; 3] = backbuf[x + j * width];
            vr = vr + (bb[0] as u128);
            vg = vg + (bb[1] as u128);
            vb = vb + (bb[2] as u128);
            j = j + 1;
        }
        let mut t: usize = 0;
        while t <= blur_radius
            invariant
                t <= blur_radius + 1,
                vr == wsum(col0, t - 1 - r, t - 1 + r),
                vg == wsum(col1, t - 1 - r, t - 1 + r),
                vb == wsum(col2, t - 1 - r, t - 1 + r),
                frontbuf.len() == width * height,
                forall|c: int, k: int|
                    0 <= c < 3 && 0 <= k < width * height && (k % w < x || (k % w == x && k / w
                        < t)) ==> frontbuf@[k]@[c] == vert_blur(plane(backbuf@, c), w, h, r)[k],
            decreases blur_radius + 1 - t,
        {
            proof {
                lemma_wsum_slide(col0, t - 1 - r, t - 1 + r);
                lemma_wsum_slide(col1, t - 1 - r, t - 1 + r);
                lemma_wsum_slide(col2, t - 1 - r, t - 1 + r);
                lemma_wsum_head_le(col0, t - 1 - r, t - 1 + r);
                lemma_wsum_head_le(col1, t - 1 - r, t - 1 + r);
                lemma_wsum_head_le(col2, t - 1 - r, t - 1 + r);
                lemma_wsum_bounds(col0, t - r, t + r);
                lemma_wsum_bounds(col1, t - r, t + r);
                lemma_wsum_bounds(col2, t - r, t + r);
                lemma_mul_inequality(t + r, h - 1, w);
                lemma_mul_inequality(t as int, h - 1, w);
            }
            let bb: [u8; 3] = backbuf[x + (t + blur_radius) * width];
            vr = vr + (bb[0] as u128) - (f0 as u128);
            vg = vg + (bb[1] as u128) - (f1 as u128);
            vb = vb + (bb[2] as u128) - (f2 as u128);
            let er = emit_avg(vr, blur_radius);
            let eg = emit_avg(vg, blur_radius);
            let eb = emit_avg(vb, blur_radius);
            let ti = x + t * width;
            frontbuf[ti] = [er, eg, eb];
            proof {
                lemma_fundamental_div_mod_converse(ti as int, w, t as int, x as int);
                assert forall|k: int|
                    0 <= k < width * height && #[trigger] (k % w) == x as int && k / w
                        == t as int implies k == ti as int by {
                    lemma_fundamental_div_mod(k, w);
                    assert(k == w * (k / w) + (k % w));
                    assert(w * (t as int) == (t as int) * w) by (nonlinear_arith);
                    assert(ti as int == (x as int) + (t as int) * w);
                }
            }
            t = t + 1;
        }
        while t < height - blur_radius
            invariant
                blur_radius + 1 <= t <= height - blur_radius,
                vr == wsum(col0, t - 1 - r, t - 1 + r),
                vg == wsum(col1, t - 1 - r, t - 1 + r),
                vb == wsum(col2, t - 1 - r, t - 1 + r),
                frontbuf.len() == width * height,
                forall|c: int, k: int|
                    0 <= c < 3 && 0 <= k < width * height && (k % w < x || (k % w == x && k / w
                        < t)) ==> frontbuf@[k]@[c] == vert_blur(plane(backbuf@, c), w, h, r)[k],
            decreases height - t,
        {
            proof {
                lemma_wsum_slide(col0, t - 1 - r, t - 1 + r);
                lemma_wsum_slide(col1, t - 1 - r, t - 1 + r);
                lemma_wsum_slide(col2, t - 1 - r, t - 1 + r);
                lemma_wsum_head_le(col0, t - 1 - r, t - 1 + r);
                lemma_wsum_head_le(col1, t - 1 - r, t - 1 + r);
                lemma_wsum_head_le(col2, t - 1 - r, t - 1 + r);
                lemma_wsum_bounds(col0, t - r, t + r);
                lemma_wsum_bounds(col1, t - r, t + r);
                lemma_wsum_bounds(col2, t - r, t + r);
                lemma_mul_inequality(t + r, h - 1, w);
                lemma_mul_inequality(t as int, h - 1, w);
                lemma_mul_inequality(t - 1 - r, h - 1, w);
            }
            let bb1: [u8; 3] = backbuf[x + (t + blur_radius) * width];
            let bb2: [u8; 3] = backbuf[x + (t - blur_radius - 1) * width];
            vr = vr + (bb1[0] as u128) - (bb2[0] as u128);
            vg = vg + (bb1[1] as u128) - (bb2[1] as u128);
            vb = vb + (bb1[2] as u128) - (bb2[2] as u128);
            let er = emit_avg(vr, blur_radius);
            let eg = emit_avg(vg, blur_radius);
            let eb = emit_avg(vb, blur_radius);
            let ti = x + t * width;
            frontbuf[ti] = [er, eg, eb];
            proof {
                lemma_fundamental_div_mod_converse(ti as int, w, t as int, x as int);
                assert forall|k: int|
                    0 <= k < width * height && #[trigger] (k % w) == x as int && k / w
                        == t as int implies k == ti as int by {
                    lemma_fundamental_div_mod(k, w);
                    assert(k == w * (k / w) + (k % w));
                    assert(w * (t as int) == (t as int) * w) by (nonlinear_arith);
                    assert(ti as int == (x as int) + (t as int) * w);
                }
            }
            t = t + 1;
        }
        while t < height
            invariant
                height - blur_radius <= t <= height,
                vr == wsum(col0, t - 1 - r, t - 1 + r),
                vg == wsum(col1, t - 1 - r, t - 1 + r),
                vb == wsum(col2, t - 1 - r, t - 1 + r),
                frontbuf.len() == width * height,
                forall|c: int, k: int|
                    0 <= c < 3 && 0 <= k < width * height && (k % w < x || (k % w == x && k / w
                        < t)) ==> frontbuf@[k]@[c] == vert_blur(plane(backbuf@, c), w, h, r)[k],
            decreases height - t,
        {
            proof {
                lemma_wsum_slide(col0, t - 1 - r, t - 1 + r);
                lemma_wsum_slide(col1, t - 1 - r, t - 1 + r);
                lemma_wsum_slide(col2, t - 1 - r, t - 1 + r);
                lemma_wsum_head_le(col0, t - 1 - r, t - 1 + r);
                lemma_wsum_head_le(col1, t - 1 - r, t - 1 + r);
                lemma_wsum_head_le(col2, t - 1 - r, t - 1 + r);
                lemma_wsum_bounds(col0, t - r, t + r);
                lemma_wsum_bounds(col1, t - r, t + r);
                lemma_wsum_bounds(col2, t - r, t + r);
                lemma_mul_inequality(t as int, h - 1, w);
                lemma_mul_inequality(t - 1 - r, h - 1, w);
            }
            let bb: [u8; 3] = backbuf[x + (t - blur_radius - 1) * width];
            vr = vr + (l0 as u128) - (bb[0] as u128);
            vg = vg + (l1 as u128) - (bb[1] as u128);
            vb = vb + (l2 as u128) - (bb[2] as u128);
            let er = emit_avg(vr, blur_radius);
            let eg = emit_avg(vg, blur_radius);
            let eb = emit_avg(vb, blur_radius);
            let ti = x + t * width;
            frontbuf[ti] = [er, eg, eb];
            proof {
                lemma_fundamental_div_mod_converse(ti as int, w, t as int, x as int);
                assert forall|k: int|
                    0 <= k < width * height && #[trigger] (k % w) == x as int && k / w
                        == t as int implies k == ti as int by {
                    lemma_fundamental_div_mod(k, w);
                    assert(k == w * (k / w) + (k % w));
                    assert(w * (t as int) == (t as int) * w) by (nonlinear_arith);
                    assert(ti as int == (x as int) + (t as int) * w);
                }
            }
            t = t + 1;
        }
        proof {
            assert forall|k: int| 0 <= k < width * height && #[trigger] (k % w) == x as int implies
                k / w < h by {
                lemma_fundamental_div_mod(k, w);
                if k / w >= h {
                    lemma_mul_inequality(h, k / w, w);
                    assert(false);
                }
            }
        }
        x = x + 1;
    }
    proof {
        assert forall|c: int| 0 <= c < 3 implies plane(frontbuf@, c) == vert_blur(
            plane(backbuf@, c),
            w,
            h,
            r,
        ) by {
            assert(plane(frontbuf@, c) =~= vert_blur(plane(backbuf@, c), w, h, r));
        }
    }
}

/// An element-for-element copy of an image buffer.
fn clone_buf(src: &Vec<[u8; 3]>) -> (out: Vec<[u8; 3]>)
    ensures
        out@ == src@,
{
    let mut out: Vec<[u8; 3]> = Vec::new();
    let mut i: usize = 0;
    while i < src.len()
        invariant
            i <= src.len(),
            out@ == src@.subrange(0, i as int),
        decreases src.len() - i,
    {
        out.push(src[i]);
        proof {
            assert(out@ =~= src@.subrange(0, i + 1));
        }
        i = i + 1;
    }
    proof {
        assert(out@ =~= src@);
    }
    out
}

/// One full box-blur pass over `backbuf`: rows first, then columns, using
/// `frontbuf` as the intermediate buffer.  The pass result lands in
/// `backbuf`; `frontbuf` is left holding the horizontal half-pass.
pub fn box_blur(
    backbuf: &mut Vec<[u8; 3]>,
    frontbuf: &mut Vec<[u8; 3]>,
    width: usize,
    height: usize,
    blur_radius: usize,
)
    requires
        1 <= width,
        1 <= height,
        old(backbuf).len() == width * height,
        old(frontbuf).len() == width * height,
        2 * blur_radius < width,
        2 * blur_radius < height,
    ensures
        final(backbuf).len() == width * height,
        final(frontbuf).len() == width * height,
        forall|c: int|
            0 <= c < 3 ==> plane(final(frontbuf)@, c) == horz_blur(
                plane(old(backbuf)@, c),
                width as int,
                height as int,
                blur_radius as int,
            ),
        forall|c: int|
            0 <= c < 3 ==> plane(final(backbuf)@, c) == blur_pass(
                plane(old(backbuf)@, c),
                width as int,
                height as int,
                blur_radius as int,
            ),
{
    box_blur_horz(backbuf, frontbuf, width, height, blur_radius);
    box_blur_vert(frontbuf, backbuf, width, height, blur_radius);
}

/// Three blur passes, with the radii planned for a standard deviation of
/// `p / q`, applied in plan order.
pub open spec fn blur_pipeline(pl: Seq<u8>, w: int, h: int, p: int, q: int) -> Seq<u8> {
    blur_pass(
        blur_pass(blur_pass(pl, w, h, plan_radius(p, q, 3, 0)), w, h, plan_radius(p, q, 3, 1)),
        w,
        h,
        plan_radius(p, q, 3, 2),
    )
}

/// The buffer length matches the claimed dimensions.
pub open spec fn dims_ok(len: int, w: int, h: int) -> bool {
    &&& 1 <= w
    &&& 1 <= h
    &&& len == w * h
}

/// No planned box window is wider than the image in either direction.
pub open spec fn radii_ok(w: int, h: int, p: int, q: int) -> bool {
    forall|i: int|
        0 <= i < 3 ==> 2 * plan_radius(p, q, 3, i) < w && 2 * plan_radius(p, q, 3, i) < h
}

/// Approximate Gaussian blur of `data` in place: three box-blur passes with
/// the planned radii, ping-ponging through a scratch buffer so that the
/// final result lands back in `data`.
pub fn gaussian_blur(data: &mut Vec<[u8; 3]>, width: usize, height: usize, sigma: Sigma)
    requires
        sigma.wf(),
        1 <= width,
        1 <= height,
        old(data).len() == width * height,
        radii_ok(width as int, height as int, sigma.num as int, sigma.den as int),
    ensures
        final(data).len() == width * height,
        forall|c: int|
            0 <= c < 3 ==> plane(final(data)@, c) == blur_pipeline(
                plane(old(data)@, c),
                width as int,
                height as int,
                sigma.num as int,
                sigma.den as int,
            ),
{
    let ghost p = sigma.num as int;
    let ghost q = sigma.den as int;
    let bxs = create_box_gauss(sigma, 3);
    let r0 = ((bxs[0] - 1) / 2) as usize;
    let r1 = ((bxs[1] - 1) / 2) as usize;
    let r2 = ((bxs[2] - 1) / 2) as usize;
    assert(r0 == plan_radius(p, q, 3, 0));
    assert(r1 == plan_radius(p, q, 3, 1));
    assert(r2 == plan_radius(p, q, 3, 2));
    let mut backbuf = clone_buf(data);
    box_blur(data, &mut backbuf, width, height, r0);
    box_blur(data, &mut backbuf, width, height, r1);
    box_blur(data, &mut backbuf, width, height, r2);
}

/// Why a `blur` call was rejected before touching the image.
#[derive(Clone, Copy, Debug, PartialEq, Eq, Structural)]
pub enum BlurError {
    /// The buffer length does not equal `width * height` (or a dimension is 0).
    DimensionMismatch,
    /// A planned box window is wider than the image in some direction.
    RadiusExceedsDimension,
}

/// Checked entry point: validates every precondition before the first pass
/// writes anything, so the call either completes fully or leaves `data`
/// untouched and says why.
pub fn blur(data: &mut Vec<[u8; 3]>, width: usize, height: usize, sigma: Sigma) -> (res: Result<
    (),
    BlurError,
>)
    requires
        sigma.wf(),
    ensures
        final(data).len() == old(data).len(),
        res is Ok <==> dims_ok(old(data).len() as int, width as int, height as int) && radii_ok(
            width as int,
            height as int,
            sigma.num as int,
            sigma.den as int,
        ),
        res is Ok ==> forall|c: int|
            0 <= c < 3 ==> plane(final(data)@, c) == blur_pipeline(
                plane(old(data)@, c),
                width as int,
                height as int,
                sigma.num as int,
                sigma.den as int,
            ),
        res is Err ==> final(data)@ == old(data)@,
        res == Result::<(), BlurError>::Err(BlurError::DimensionMismatch) <==> !dims_ok(
            old(data).len() as int,
            width as int,
            height as int,
        ),
        res == Result::<(), BlurError>::Err(BlurError::RadiusExceedsDimension) <==> dims_ok(
            old(data).len() as int,
            width as int,
            height as int,
        ) && !radii_ok(width as int, height as int, sigma.num as int, sigma.den as int),
{
    let ghost p = sigma.num as int;
    let ghost q = sigma.den as int;
    let ghost w = width as int;
    let ghost h = height as int;
    if width < 1 || height < 1 {
        return Err(BlurError::DimensionMismatch);
    }
    if data.len() % width != 0 || data.len() / width != height {
        proof {
            lemma_fundamental_div_mod(data.len() as int, w);
            if data.len() as int == w * h {
                lemma_fundamental_div_mod_converse(data.len() as int, w, h, 0);
            }
        }
        return Err(BlurError::DimensionMismatch);
    }
    proof {
        lemma_fundamental_div_mod(data.len() as int, w);
    }
    let bxs = create_box_gauss(sigma, 3);
    let r0 = ((bxs[0] - 1) / 2) as usize;
    let r1 = ((bxs[1] - 1) / 2) as usize;
    let r2 = ((bxs[2] - 1) / 2) as usize;
    assert(r0 == plan_radius(p, q, 3, 0));
    assert(r1 == plan_radius(p, q, 3, 1));
    assert(r2 == plan_radius(p, q, 3, 2));
    if 2 * r0 >= width || 2 * r0 >= height || 2 * r1 >= width || 2 * r1 >= height || 2 * r2
        >= width || 2 * r2 >= height {
        return Err(BlurError::RadiusExceedsDimension);
    }
    assert(radii_ok(w, h, p, q)) by {
        assert forall|i: int| 0 <= i < 3 implies 2 * plan_radius(p, q, 3, i) < w && 2
            * plan_radius(p, q, 3, i) < h by {
            if i == 0 {
            } else if i == 1 {
            } else {
            }
        }
    }
    gaussian_blur(data, width, height, sigma);
    Ok(())
}

/// Relies on rayon's `par_chunks`, `par_chunks_mut`, `zip` and `for_each`:
/// the two buffers are cut into non-overlapping rows of length `width`,
/// corresponding rows are paired index-for-index, and the closure runs once
/// per pair, writing the one-row blur of the source row over the
/// destination row.
#[verifier::external_body]
fn par_blur_horz_rows(
    backbuf: &Vec<[u8; 3]>,
    frontbuf: &mut Vec<[u8; 3]>,
    width: usize,
    height: usize,
    blur_radius: usize,
)
    requires
        1 <= width,
        1 <= height,
        backbuf.len() == width * height,
        old(frontbuf).len() == width * height,
        2 * blur_radius < width,
    ensures
        final(frontbuf).len() == width * height,
        forall|c: int|
            0 <= c < 3 ==> plane(final(frontbuf)@, c) == horz_blur(
                plane(backbuf@, c),
                width as int,
                height as int,
                blur_radius as int,
            ),
{
    backbuf.par_chunks(width).zip(frontbuf.par_chunks_mut(width)).for_each(|(src, dst)| {
        let row = src.to_vec();
        let mut out = dst.to_vec();
        box_blur_horz(&row, &mut out, width, 1, blur_radius);
        dst.copy_from_slice(&out);
    });
}

/// One full box-blur pass like [`box_blur`], with the horizontal half
/// partitioned by rows across a worker pool; the vertical half starts only
/// after every row has been written.
pub fn box_blur_parallel(
    backbuf: &mut Vec<[u8; 3]>,
    frontbuf: &mut Vec<[u8; 3]>,
    width: usize,
    height: usize,
    blur_radius: usize,
)
    requires
        1 <= width,
        1 <= height,
        old(backbuf).len() == width * height,
        old(frontbuf).len() == width * height,
        2 * blur_radius < width,
        2 * blur_radius < height,
    ensures
        final(backbuf).len() == width * height,
        final(frontbuf).len() == width * height,
        forall|c: int|
            0 <= c < 3 ==> plane(final(frontbuf)@, c) == horz_blur(
                plane(old(backbuf)@, c),
                width as int,
                height as int,
                blur_radius as int,
            ),
        forall|c: int|
            0 <= c < 3 ==> plane(final(backbuf)@, c) == blur_pass(
                plane(old(backbuf)@, c),
                width as int,
                height as int,
                blur_radius as int,
            ),
{
    par_blur_horz_rows(backbuf, frontbuf, width, height, blur_radius);
    box_blur_vert(frontbuf, backbuf, width, height, blur_radius);
}

} // verus!
