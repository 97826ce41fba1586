//! Planning of the three box-filter widths that jointly approximate a
//! Gaussian of a given standard deviation.

use vstd::prelude::*;

verus! {

/// Blur strength (standard deviation) as an exact non-negative rational
/// `num / den`.  The bounds keep every intermediate product of the planner
/// within `u128` range.
#[derive(Clone, Copy, Debug)]
pub struct Sigma {
    pub num: u64,
    pub den: u64,
}

impl Sigma {
    pub open spec fn wf(self) -> bool {
        &&& 1 <= self.den <= 0x100_0000
        &&& self.num <= 0x100_0000
    }

    pub fn new(num: u64, den: u64) -> (s: Sigma)
        requires
            1 <= den <= 0x100_0000,
            num <= 0x100_0000,
        ensures
            s.wf(),
            s.num == num,
            s.den == den,
    {
        Sigma { num, den }
    }

    /// A whole-number standard deviation.
    pub fn from_int(v: u64) -> (s: Sigma)
        requires
            v <= 0x100_0000,
        ensures
            s.wf(),
            s.num == v,
            s.den == 1,
    {
        Sigma { num: v, den: 1 }
    }
}

/// `k` is the floor of the square root of the rational `a / b`.
pub open spec fn sqrt_cond(a: int, b: int, k: int) -> bool {
    &&& 0 <= k
    &&& k * k * b <= a
    &&& a < (k + 1) * (k + 1) * b
}

/// Floor of the square root of the rational `a / b`.
pub open spec fn rat_floor_sqrt(a: int, b: int) -> int {
    choose|k: int| sqrt_cond(a, b, k)
}

proof fn lemma_sqrt_unique(a: int, b: int, k1: int, k2: int)
    requires
        1 <= b,
        sqrt_cond(a, b, k1),
        sqrt_cond(a, b, k2),
    ensures
        k1 == k2,
{
    if k1 < k2 {
        assert(false) by (nonlinear_arith)
            requires 0 <= k1, k1 < k2, 1 <= b, k2 * k2 * b <= a, a < (k1 + 1) * (k1 + 1) * b;
    }
    if k2 < k1 {
        assert(false) by (nonlinear_arith)
            requires 0 <= k2, k2 < k1, 1 <= b, k1 * k1 * b <= a, a < (k2 + 1) * (k2 + 1) * b;
    }
}

pub proof fn lemma_sqrt_exists(a: int, b: int)
    requires
        0 <= a,
        1 <= b,
    ensures
        exists|k: int| sqrt_cond(a, b, k),
    decreases a,
{
    if a < b {
        assert(0 * 0 * b == 0) by (nonlinear_arith);
        assert((0 + 1) * (0 + 1) * b == b) by (nonlinear_arith);
        assert(sqrt_cond(a, b, 0));
    } else {
        lemma_sqrt_exists(a - 1, b);
        let k = choose|k: int| #[trigger] sqrt_cond(a - 1, b, k);
        if a < (k + 1) * (k + 1) * b {
            assert(sqrt_cond(a, b, k));
        } else {
            assert(a < (k + 2) * (k + 2) * b) by (nonlinear_arith)
                requires 0 <= k, 1 <= b, a - 1 < (k + 1) * (k + 1) * b;
            assert(sqrt_cond(a, b, k + 1));
        }
    }
}

/// The lower of the two candidate odd box widths for a plan: the ideal
/// width `sqrt(12 sigma^2 / n) + 1` (sigma written `p / q`), rounded down
/// and forced odd.
pub open spec fn plan_wl(p: int, q: int, n: int) -> int {
    let k = rat_floor_sqrt(12 * p * p, n * q * q);
    if (k + 1) % 2 == 0 {
        k
    } else {
        k + 1
    }
}

/// How many of the `n` passes use the lower width `wl`: the rounding of the
/// ideal mixing fraction `(12 sigma^2 - n wl^2 - 4 n wl - 3 n) / (-4 wl - 4)`,
/// written over positive numerator and denominator.
pub open spec fn plan_m(p: int, q: int, n: int) -> int {
    let wl = plan_wl(p, q, n);
    let a = n * (wl + 1) * (wl + 3) * (q * q) - 12 * p * p;
    let b = 4 * (wl + 1) * (q * q);
    (2 * a + b) / (2 * b)
}

/// Width of the box filter used by pass `i`: the first `plan_m` passes use
/// the lower width, the rest the next odd width up.
pub open spec fn plan_width(p: int, q: int, n: int, i: int) -> int {
    if i < plan_m(p, q, n) {
        plan_wl(p, q, n)
    } else {
        plan_wl(p, q, n) + 2
    }
}

/// Half-width (radius) of the box filter used by pass `i`.
pub open spec fn plan_radius(p: int, q: int, n: int, i: int) -> int {
    (plan_width(p, q, n, i) - 1) / 2
}

/// Binary search for the floor of the square root of `a / b`.
#[verifier::loop_isolation(false)]
fn isqrt_ratio(a: u128, b: u128) -> (k: u128)
    requires
        1 <= b < 0x2000_0000_0000_0000,
        a < 0x10_0000_0000_0000,
    ensures
        sqrt_cond(a as int, b as int, k as int),
        k as int == rat_floor_sqrt(a as int, b as int),
        k < 0x400_0000,
{
    let mut lo: u128 = 0;
    let mut hi: u128 = 0x400_0000;
    proof {
        assert(0 * 0 * (b as int) == 0) by (nonlinear_arith);
        assert((a as int) < 0x400_0000 * 0x400_0000 * (b as int)) by (nonlinear_arith)
            requires 1 <= (b as int), (a as int) < 0x10_0000_0000_0000;
    }
    while lo + 1 < hi
        invariant
            0 <= lo < hi <= 0x400_0000,
            (lo as int) * (lo as int) * (b as int) <= a as int,
            (a as int) < (hi as int) * (hi as int) * (b as int),
        decreases hi - lo,
    {
        let mid: u128 = lo + (hi - lo) / 2;
        proof {
            assert((mid as int) * (mid as int) <= 0x1000_0000_0000_0000) by (nonlinear_arith)
                requires 0 <= (mid as int) <= 0x400_0000;
            assert((mid as int) * (mid as int) * (b as int) < 0x10_0000_0000_0000_0000_0000_0000_0000)
                by (nonlinear_arith)
                requires 0 <= (mid as int) <= 0x400_0000, 1 <= (b as int), (b as int) < 0x2000_0000_0000_0000;
        }
        if mid * mid * b <= a {
            lo = mid;
        } else {
            hi = mid;
        }
    }
    proof {
        assert(sqrt_cond(a as int, b as int, lo as int));
        let ka = rat_floor_sqrt(a as int, b as int);
        assert(sqrt_cond(a as int, b as int, ka));
        lemma_sqrt_unique(a as int, b as int, lo as int, ka);
    }
    lo
}

/// Compute the `n` box-filter widths whose successive application best
/// approximates a Gaussian of standard deviation `sigma`.  Widths are odd,
/// at least 1, and come lower-width-first.
#[verifier::loop_isolation(false)]
pub fn create_box_gauss(sigma: Sigma, n: usize) -> (sizes: Vec<i32>)
    requires
        sigma.wf(),
        1 <= n <= 255,
    ensures
        sizes@.len() == n,
        forall|i: int|
            0 <= i < n ==> sizes@[i] as int == plan_width(
                sigma.num as int,
                sigma.den as int,
                n as int,
                i,
            ),
        forall|i: int| 0 <= i < n ==> 1 <= sizes@[i] <= 0x800_0003 && sizes@[i] % 2 == 1,
{
    let ghost pi = sigma.num as int;
    let ghost qi = sigma.den as int;
    let ghost ni = n as int;
    let p: u128 = sigma.num as u128;
    let q: u128 = sigma.den as u128;
    let nn: u128 = n as u128;
    proof {
        assert(12 * (p as int) * (p as int) < 0x10_0000_0000_0000) by (nonlinear_arith)
            requires 0 <= p as int <= 0x100_0000;
        assert(1 <= (nn as int) * ((q as int) * (q as int)) < 0x2000_0000_0000_0000)
            by (nonlinear_arith)
            requires 1 <= q as int <= 0x100_0000, 1 <= nn as int <= 255;
        assert((q as int) * (q as int) <= 0x1_0000_0000_0000) by (nonlinear_arith)
            requires 1 <= q as int <= 0x100_0000;
    }
    let a: u128 = 12 * p * p;
    let b: u128 = nn * (q * q);
    let k: u128 = isqrt_ratio(a, b);
    proof {
        assert((a as int) == 12 * pi * pi);
        assert((b as int) == ni * qi * qi) by (nonlinear_arith)
            requires (b as int) == ni * (qi * qi);
    }
    let wl: u128 = if (k + 1) % 2 == 0 {
        k
    } else {
        k + 1
    };
    assert(wl as int == plan_wl(pi, qi, ni));
    let t1: u128 = wl + 1;
    let t3: u128 = wl + 3;
    proof {
        let ki = k as int;
        let wli = wl as int;
        let bi = b as int;
        assert((ki + 1) * (ki + 1) * bi <= (wli + 1) * (wli + 1) * bi) by (nonlinear_arith)
            requires 0 <= ki <= wli, 0 <= bi;
        assert((wli + 1) * (wli + 1) * bi <= (wli + 1) * (wli + 3) * bi) by (nonlinear_arith)
            requires 0 <= wli, 0 <= bi;
        assert((wli + 1) * (wli + 3) * ((nn as int) * ((q as int) * (q as int))) == (nn as int) * (
        wli + 1) * (wli + 3) * ((q as int) * (q as int))) by (nonlinear_arith);
        assert((nn as int) * (wli + 1) * (wli + 3) * ((q as int) * (q as int))
            < 0x1_0000_0000_0000_0000_0000_0000_0000) by (nonlinear_arith)
            requires
                0 <= wli <= 0x400_0001,
                1 <= nn as int <= 255,
                1 <= q as int <= 0x100_0000,
        ;
        assert(4 * (wli + 1) * ((q as int) * (q as int)) < 0x1_0000_0000_0000_0000_0000)
            by (nonlinear_arith)
            requires 0 <= wli <= 0x400_0001, 1 <= q as int <= 0x100_0000;
        assert(1 <= 4 * (wli + 1) * ((q as int) * (q as int))) by (nonlinear_arith)
            requires 0 <= wli, 1 <= q as int;
        let nni = nn as int;
        let t1i = t1 as int;
        let t3i = t3 as int;
        let qq = (q as int) * (q as int);
        assert(0 <= nni * t1i <= 0x1_0000_0000_0000) by (nonlinear_arith)
            requires 1 <= nni <= 255, 0 <= t1i <= 0x400_0003;
        assert(0 <= nni * t1i * t3i <= 0x4000_0000_0000_0000) by (nonlinear_arith)
            requires 1 <= nni <= 255, 0 <= t1i <= 0x400_0003, 0 <= t3i <= 0x400_0003;
        assert(0 <= nni * t1i * t3i * qq <= 0x1_0000_0000_0000_0000_0000_0000_0000)
            by (nonlinear_arith)
            requires 0 <= nni * t1i * t3i <= 0x4000_0000_0000_0000, 0 <= qq <= 0x1_0000_0000_0000;
        assert(0 <= 4 * t1i * qq <= 0x1_0000_0000_0000_0000_0000) by (nonlinear_arith)
            requires 0 <= t1i <= 0x400_0003, 0 <= qq <= 0x1_0000_0000_0000;
    }
    let aa: u128 = nn * t1 * t3 * (q * q) - a;
    let bb: u128 = 4 * t1 * (q * q);
    let m: u128 = (2 * aa + bb) / (2 * bb);
    proof {
        assert(aa as int == ni * ((wl as int) + 1) * ((wl as int) + 3) * (qi * qi) - 12 * pi * pi)
            by (nonlinear_arith)
            requires
                aa as int == (nn as int) * (t1 as int) * (t3 as int) * ((q as int) * (q as int)) - (
                a as int),
                a as int == 12 * (p as int) * (p as int),
                t1 as int == wl as int + 1,
                t3 as int == wl as int + 3,
                nn as int == ni,
                q as int == qi,
                p as int == pi,
        ;
        assert(bb as int == 4 * ((wl as int) + 1) * (qi * qi)) by (nonlinear_arith)
            requires
                bb as int == 4 * (t1 as int) * ((q as int) * (q as int)),
                t1 as int == wl as int + 1,
                q as int == qi,
        ;
        assert(m as int == plan_m(pi, qi, ni));
    }
    let mut sizes: Vec<i32> = Vec::new();
    let mut i: usize = 0;
    while i < n
        invariant
            i <= n,
            sizes@.len() == i,
            forall|j: int| 0 <= j < i ==> sizes@[j] as int == plan_width(pi, qi, ni, j),
            forall|j: int| 0 <= j < i ==> 1 <= sizes@[j] <= 0x800_0003 && sizes@[j] % 2 == 1,
        decreases n - i,
    {
        if (i as u128) < m {
            sizes.push(wl as i32);
        } else {
            sizes.push((wl + 2) as i32);
        }
        i = i + 1;
    }
    sizes
}

/// Every planned width is odd, at least 1, and exceeds its radius-derived
/// form by exactly `2 * radius + 1`.
pub proof fn lemma_plan_props(p: int, q: int, n: int)
    requires
        0 <= p,
        1 <= q,
        1 <= n,
    ensures
        1 <= plan_wl(p, q, n),
        plan_wl(p, q, n) % 2 == 1,
        forall|i: int| #[trigger] plan_width(p, q, n, i) == plan_wl(p, q, n) || plan_width(p, q, n, i) == plan_wl(p, q, n) + 2,
        forall|i: int| #[trigger] plan_width(p, q, n, i) % 2 == 1 && 1 <= plan_width(p, q, n, i),
        forall|i: int| 0 <= #[trigger] plan_radius(p, q, n, i),
        forall|i: int| 2 * #[trigger] plan_radius(p, q, n, i) + 1 == plan_width(p, q, n, i),
{
    assert(0 <= 12 * p * p && 1 <= n * q * q) by (nonlinear_arith)
        requires 0 <= p, 1 <= q, 1 <= n;
    lemma_sqrt_exists(12 * p * p, n * q * q);
    let k = rat_floor_sqrt(12 * p * p, n * q * q);
    assert(sqrt_cond(12 * p * p, n * q * q, k));
    let wl = plan_wl(p, q, n);
    assert(1 <= wl && wl % 2 == 1);
    assert forall|i: int| 2 * #[trigger] plan_radius(p, q, n, i) + 1 == plan_width(p, q, n, i) by {
        let wd = plan_width(p, q, n, i);
        assert(wd == wl || wd == wl + 2);
        assert(wd % 2 == 1 && 1 <= wd);
        assert(wd - 1 == 2 * ((wd - 1) / 2)) by {
            vstd::arithmetic::div_mod::lemma_fundamental_div_mod(wd - 1, 2);
        }
    }
}

/// A zero standard deviation plans the minimal widths: every pass gets
/// width 1, hence radius 0.
pub proof fn lemma_plan_sigma_zero(q: int, n: int)
    requires
        1 <= q,
        1 <= n,
    ensures
        forall|i: int| 0 <= i < n ==> #[trigger] plan_width(0, q, n, i) == 1,
        forall|i: int| 0 <= i < n ==> #[trigger] plan_radius(0, q, n, i) == 0,
{
    let qq = q * q;
    let b = n * q * q;
    assert(1 <= n * q * q) by (nonlinear_arith)
        requires 1 <= q, 1 <= n;
    assert(n * q * q == n * (q * q)) by (nonlinear_arith);
    assert(12 * 0 * 0 == 0) by (nonlinear_arith);
    assert(0 * 0 * b == 0) by (nonlinear_arith);
    assert((0 + 1) * (0 + 1) * b == b) by (nonlinear_arith);
    assert(sqrt_cond(0, b, 0));
    let k = rat_floor_sqrt(0, b);
    assert(sqrt_cond(0, b, k));
    lemma_sqrt_unique(0, b, 0, k);
    assert(plan_wl(0, q, n) == 1);
    let a2 = n * (1 + 1) * (1 + 3) * qq - 12 * 0 * 0;
    let b2 = 4 * (1 + 1) * qq;
    assert(plan_m(0, q, n) == (2 * a2 + b2) / (2 * b2));
    assert(2 * (n * (1 + 1) * (1 + 3) * qq - 12 * 0 * 0) + 4 * (1 + 1) * qq == (2 * n + 1) * (8
        * qq)) by (nonlinear_arith);
    assert(2 * (4 * (1 + 1) * qq) == (8 * qq) * 2) by (nonlinear_arith);
    assert(0 < 8 * (q * q)) by (nonlinear_arith)
        requires 1 <= q;
    vstd::arithmetic::div_mod::lemma_div_by_multiple(2 * n + 1, 8 * qq);
    assert(0 <= (2 * n + 1) * (8 * (q * q))) by (nonlinear_arith)
        requires 1 <= n, 1 <= q;
    vstd::arithmetic::div_mod::lemma_div_denominator((2 * n + 1) * (8 * qq), 8 * qq, 2);
    assert(plan_m(0, q, n) == (2 * n + 1) / 2);
    assert(plan_m(0, q, n) == n);
}

} // verus!
