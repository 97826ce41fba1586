//! Properties of the blur that hold for whole families of images: uniform
//! images are fixed points, channels are independent, the pass order is
//! fixed and deterministic, and a zero standard deviation plans to a no-op.

use vstd::prelude::*;
use vstd::arithmetic::div_mod::{
    lemma_fundamental_div_mod, lemma_div_denominator, lemma_div_by_multiple,
};
use vstd::arithmetic::mul::lemma_mul_inequality;
use crate::blur::{
    plane, clip, wsum, rnd_avg, blur_line, row_of, col_of, horz_blur, vert_blur, blur_pass,
    blur_pipeline,
};
use crate::planner::{plan_radius, lemma_plan_props, lemma_plan_sigma_zero};

verus! {

proof fn lemma_wsum_const(s: Seq<u8>, lo: int, hi: int, v: u8)
    requires
        s.len() >= 1,
        lo <= hi + 1,
        forall|k: int| 0 <= k < s.len() ==> s[k] == v,
    ensures
        wsum(s, lo, hi) == (hi + 1 - lo) * v,
    decreases hi + 1 - lo,
{
    if lo > hi {
        assert((hi + 1 - lo) * v == 0) by (nonlinear_arith)
            requires hi + 1 - lo == 0;
    } else {
        lemma_wsum_const(s, lo + 1, hi, v);
        assert(s[clip(lo, s.len() as int)] == v);
        assert((hi + 1 - lo) * v == (hi - lo) * v + v) by (nonlinear_arith);
    }
}

proof fn lemma_rnd_avg_const(v: u8, r: int)
    requires
        0 <= r,
    ensures
        rnd_avg((2 * r + 1) * v, r) == v,
{
    let vi = v as int;
    let d = 2 * r + 1;
    let x = d * (2 * vi + 1);
    assert(2 * ((2 * r + 1) * vi) + (2 * r + 1) == (2 * r + 1) * (2 * vi + 1)) by (nonlinear_arith);
    lemma_div_by_multiple(2 * vi + 1, d);
    assert((2 * r + 1) * (2 * vi + 1) == (2 * vi + 1) * (2 * r + 1)) by (nonlinear_arith);
    assert(x / d == 2 * vi + 1);
    assert(0 <= (2 * r + 1) * (2 * vi + 1)) by (nonlinear_arith)
        requires 0 <= r, 0 <= vi;
    lemma_div_denominator(x, d, 2);
    assert(x / (d * 2) == (2 * vi + 1) / 2);
    assert(d * 2 == 2 * d);
    assert((2 * vi + 1) / 2 == vi);
}

proof fn lemma_blur_line_const(s: Seq<u8>, r: int, v: u8)
    requires
        s.len() >= 1,
        0 <= r,
        forall|k: int| 0 <= k < s.len() ==> s[k] == v,
    ensures
        blur_line(s, r) == s,
{
    assert forall|i: int| 0 <= i < s.len() implies blur_line(s, r)[i] == s[i] by {
        lemma_wsum_const(s, i - r, i + r, v);
        assert((i + r + 1 - (i - r)) * v == (2 * r + 1) * v);
        lemma_rnd_avg_const(v, r);
    }
    assert(blur_line(s, r) =~= s);
}

proof fn lemma_div_below(k: int, w: int, h: int)
    requires
        1 <= w,
        0 <= k < w * h,
    ensures
        0 <= k / w < h,
        0 <= k % w < w,
        k == (k / w) * w + k % w,
{
    lemma_fundamental_div_mod(k, w);
    vstd::arithmetic::div_mod::lemma_mod_pos_bound(k, w);
    assert(w * (k / w) == (k / w) * w) by (nonlinear_arith);
    if k / w >= h {
        lemma_mul_inequality(h, k / w, w);
        assert(h * w == w * h) by (nonlinear_arith);
        assert(k >= h * w);
        assert(false);
    }
}

proof fn lemma_uniform_horz(pl: Seq<u8>, w: int, h: int, r: int, v: u8)
    requires
        1 <= w,
        1 <= h,
        pl.len() == w * h,
        0 <= r,
        forall|k: int| 0 <= k < pl.len() ==> pl[k] == v,
    ensures
        horz_blur(pl, w, h, r) == pl,
{
    assert forall|k: int| 0 <= k < pl.len() implies horz_blur(pl, w, h, r)[k] == pl[k] by {
        lemma_div_below(k, w, h);
        let y = k / w;
        let row = row_of(pl, w, y);
        assert(0 <= y * w && y * w + w <= w * h) by (nonlinear_arith)
            requires 0 <= y, y < h, 1 <= w;
        assert(row.len() == w);
        assert(forall|j: int| 0 <= j < w ==> row[j] == pl[y * w + j] && row[j] == v);
        lemma_blur_line_const(row, r, v);
    }
    assert(horz_blur(pl, w, h, r) =~= pl);
}

proof fn lemma_uniform_vert(pl: Seq<u8>, w: int, h: int, r: int, v: u8)
    requires
        1 <= w,
        1 <= h,
        pl.len() == w * h,
        0 <= r,
        forall|k: int| 0 <= k < pl.len() ==> pl[k] == v,
    ensures
        vert_blur(pl, w, h, r) == pl,
{
    assert forall|k: int| 0 <= k < pl.len() implies vert_blur(pl, w, h, r)[k] == pl[k] by {
        lemma_div_below(k, w, h);
        let x = k % w;
        let col = col_of(pl, w, h, x);
        assert(col.len() == h);
        assert forall|j: int| 0 <= j < h implies col[j] == v by {
            assert(col[j] == pl[j * w + x]);
            assert(0 <= j * w + x && j * w + x < w * h) by (nonlinear_arith)
                requires 0 <= j, j < h, 0 <= x, x < w, 1 <= w;
        }
        lemma_blur_line_const(col, r, v);
    }
    assert(vert_blur(pl, w, h, r) =~= pl);
}

/// A box-blur pass of any non-negative radius leaves a uniform plane
/// unchanged: averaging identical values is exact, so no rounding noise
/// can appear.
pub proof fn lemma_uniform_pass(pl: Seq<u8>, w: int, h: int, r: int, v: u8)
    requires
        1 <= w,
        1 <= h,
        pl.len() == w * h,
        0 <= r,
        forall|k: int| 0 <= k < pl.len() ==> pl[k] == v,
    ensures
        blur_pass(pl, w, h, r) == pl,
{
    lemma_uniform_horz(pl, w, h, r, v);
    lemma_uniform_vert(pl, w, h, r, v);
}

/// Uniform-image invariance: for every width, height and standard deviation
/// `p / q`, the full three-pass pipeline maps a plane whose pixels all hold
/// one value to itself, exactly.
pub proof fn lemma_uniform_invariance(pl: Seq<u8>, w: int, h: int, p: int, q: int, v: u8)
    requires
        1 <= w,
        1 <= h,
        pl.len() == w * h,
        0 <= p,
        1 <= q,
        forall|k: int| 0 <= k < pl.len() ==> pl[k] == v,
    ensures
        blur_pipeline(pl, w, h, p, q) == pl,
{
    lemma_plan_props(p, q, 3);
    lemma_uniform_pass(pl, w, h, plan_radius(p, q, 3, 0), v);
    lemma_uniform_pass(pl, w, h, plan_radius(p, q, 3, 1), v);
    lemma_uniform_pass(pl, w, h, plan_radius(p, q, 3, 2), v);
}

/// Channel independence: the blur of a plane depends on that plane alone.
/// If some channel of one buffer holds the same plane as some (possibly
/// different) channel of another buffer, the blurred planes agree too, so
/// permuting which byte carries which channel commutes with blurring.
pub proof fn lemma_channel_independence(
    a: Seq<[u8; 3]>,
    b: Seq<[u8; 3]>,
    ca: int,
    cb: int,
    w: int,
    h: int,
    p: int,
    q: int,
)
    requires
        0 <= ca < 3,
        0 <= cb < 3,
        plane(a, ca) == plane(b, cb),
    ensures
        blur_pipeline(plane(a, ca), w, h, p, q) == blur_pipeline(plane(b, cb), w, h, p, q),
{
}

/// The pass order is fixed — horizontal first, then vertical — and a pass
/// is a pure function of its input plane: equal planes blur to equal
/// planes, so repeating a blur on the same image gives the same output.
pub proof fn lemma_pass_deterministic(pl1: Seq<u8>, pl2: Seq<u8>, w: int, h: int, r: int)
    requires
        pl1 == pl2,
    ensures
        blur_pass(pl1, w, h, r) == vert_blur(horz_blur(pl1, w, h, r), w, h, r),
        blur_pass(pl1, w, h, r) == blur_pass(pl2, w, h, r),
{
}

/// With radius 0 every window holds exactly one pixel, so one pass returns
/// its input unchanged.
pub proof fn lemma_zero_radius_identity(pl: Seq<u8>, w: int, h: int)
    requires
        1 <= w,
        1 <= h,
        pl.len() == w * h,
    ensures
        blur_pass(pl, w, h, 0) == pl,
{
    assert forall|k: int| 0 <= k < pl.len() implies horz_blur(pl, w, h, 0)[k] == pl[k] by {
        lemma_div_below(k, w, h);
        let y = k / w;
        let row = row_of(pl, w, y);
        assert(0 <= y * w && y * w + w <= w * h) by (nonlinear_arith)
            requires 0 <= y, y < h, 1 <= w;
        let i = k % w;
        assert(wsum(row, i, i) == row[clip(i, w)] + wsum(row, i + 1, i));
        assert(wsum(row, i, i) == row[i]);
        assert(blur_line(row, 0)[i] == rnd_avg(row[i] as int, 0) as u8);
        assert(rnd_avg(row[i] as int, 0) == row[i]);
        assert(row[i] == pl[y * w + i] && y * w + i == k);
    }
    assert(horz_blur(pl, w, h, 0) =~= pl);
    let pl2 = horz_blur(pl, w, h, 0);
    assert forall|k: int| 0 <= k < pl2.len() implies vert_blur(pl2, w, h, 0)[k] == pl2[k] by {
        lemma_div_below(k, w, h);
        let x = k % w;
        let col = col_of(pl2, w, h, x);
        let t = k / w;
        assert(col[t] == pl2[t * w + x] && t * w + x == k);
        assert(wsum(col, t, t) == col[clip(t, h)] + wsum(col, t + 1, t));
        assert(wsum(col, t, t) == col[t]);
        assert(blur_line(col, 0)[t] == rnd_avg(col[t] as int, 0) as u8);
        assert(rnd_avg(col[t] as int, 0) == col[t]);
    }
    assert(vert_blur(pl2, w, h, 0) =~= pl2);
}

/// Idempotence under a zero standard deviation: the plan yields radius 0
/// for every pass, and the whole pipeline returns the image unchanged.
pub proof fn lemma_sigma_zero_identity(pl: Seq<u8>, w: int, h: int, q: int)
    requires
        1 <= w,
        1 <= h,
        pl.len() == w * h,
        1 <= q,
    ensures
        blur_pipeline(pl, w, h, 0, q) == pl,
{
    lemma_plan_sigma_zero(q, 3);
    lemma_zero_radius_identity(pl, w, h);
}

} // verus!
