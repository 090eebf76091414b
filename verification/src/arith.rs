use vstd::prelude::*;

verus! {

/// Division truncated toward zero, as Rust's `/` computes it, for a
/// positive divisor.
pub open spec fn tdiv(a: int, b: int) -> int
    recommends
        b > 0,
{
    if a >= 0 {
        a / b
    } else {
        -((-a) / b)
    }
}

/// Truncated division never grows a value's magnitude.
pub proof fn lemma_tdiv_bound(a: int, b: int)
    requires
        b > 0,
    ensures
        a >= 0 ==> 0 <= tdiv(a, b) <= a,
        a < 0 ==> a <= tdiv(a, b) <= 0,
{
    if a >= 0 {
        vstd::arithmetic::div_mod::lemma_div_nonincreasing(a, b);
        vstd::arithmetic::div_mod::lemma_div_pos_is_pos(a, b);
    } else {
        vstd::arithmetic::div_mod::lemma_div_nonincreasing(-a, b);
        vstd::arithmetic::div_mod::lemma_div_pos_is_pos(-a, b);
    }
}

/// A multiple of the divisor divides exactly.
pub proof fn lemma_tdiv_exact(k: int, b: int)
    requires
        b > 0,
    ensures
        tdiv(k * b, b) == k,
{
    if k >= 0 {
        assert(k * b >= 0 && b * k == k * b) by (nonlinear_arith)
            requires
                k >= 0 && b > 0,
        ;
        vstd::arithmetic::div_mod::lemma_div_multiples_vanish(k, b);
    } else {
        assert(k * b < 0 && -(k * b) == b * (-k)) by (nonlinear_arith)
            requires
                k < 0 && b > 0,
        ;
        vstd::arithmetic::div_mod::lemma_div_multiples_vanish(-k, b);
    }
}

/// A quotient of a sum of at most n values bounded by m stays bounded by m.
pub proof fn lemma_tdiv_quotient_bound(s: int, n: int, m: int)
    requires
        n > 0,
        m >= 0,
        -(m * n) <= s <= m * n,
    ensures
        -m <= tdiv(s, n) <= m,
{
    assert(n * m == m * n) by (nonlinear_arith);
    if s >= 0 {
        vstd::arithmetic::div_mod::lemma_div_is_ordered(s, m * n, n);
        vstd::arithmetic::div_mod::lemma_div_multiples_vanish(m, n);
        vstd::arithmetic::div_mod::lemma_div_pos_is_pos(s, n);
    } else {
        vstd::arithmetic::div_mod::lemma_div_is_ordered(-s, m * n, n);
        vstd::arithmetic::div_mod::lemma_div_multiples_vanish(m, n);
        vstd::arithmetic::div_mod::lemma_div_pos_is_pos(-s, n);
    }
}

/// Rust's truncating division on i64, related to `tdiv`.
pub fn div_trunc(a: i64, b: i64) -> (q: i64)
    requires
        b > 0,
        a > i64::MIN,
    ensures
        q == tdiv(a as int, b as int),
{
    let q = a / b;
    proof {
        if a < 0 {
            assert(q == -((-(a as int)) / (b as int)));
        }
    }
    q
}

/// Division truncated toward zero for any non-zero divisor.
pub open spec fn tdiv_s(a: int, b: int) -> int
    recommends
        b != 0,
{
    if b > 0 {
        tdiv(a, b)
    } else {
        tdiv(-a, -b)
    }
}

/// Rust's truncating division on i64 with a divisor of either sign.
pub fn div_trunc_s(a: i64, b: i64) -> (q: i64)
    requires
        b != 0,
        a > i64::MIN,
        b > i64::MIN,
        !(a == i64::MIN && b == -1),
    ensures
        q == tdiv_s(a as int, b as int),
{
    if b > 0 {
        div_trunc(a, b)
    } else {
        div_trunc(-a, -b)
    }
}

/// Linear interpolation between a and b at weight w / 1000, truncated:
/// the value w of the way from a to b.
pub open spec fn spec_mix1d(a: int, b: int, w: int) -> int {
    a + tdiv((b - a) * w, 1000)
}

/// Bound on the interpolation endpoints.
pub const MIX_IN_BOUND: i64 = 10_000_000_000;

/// Bound on the permille interpolation weight.
pub const MIX_W_BOUND: i64 = 1_000_000;

/// One-dimensional mix: the value `w` permille of the way from `a` to `b`.
/// Weights outside [0, 1000] extrapolate.
pub fn mix1d(a: i64, b: i64, w: i64) -> (r: i64)
    requires
        -MIX_IN_BOUND <= a <= MIX_IN_BOUND,
        -MIX_IN_BOUND <= b <= MIX_IN_BOUND,
        -MIX_W_BOUND <= w <= MIX_W_BOUND,
    ensures
        r == spec_mix1d(a as int, b as int, w as int),
{
    proof {
        assert(-2 * MIX_IN_BOUND * MIX_W_BOUND <= (b - a) * w <= 2 * MIX_IN_BOUND * MIX_W_BOUND)
            by (nonlinear_arith)
            requires
                -MIX_IN_BOUND <= a <= MIX_IN_BOUND,
                -MIX_IN_BOUND <= b <= MIX_IN_BOUND,
                -MIX_W_BOUND <= w <= MIX_W_BOUND,
        ;
    }
    let d = (b - a) * w;
    proof {
        lemma_tdiv_bound(d as int, 1000);
    }
    let q = div_trunc(d, 1000);
    a + q
}

/// Mixing all the way to neither end, to either end, or between equal
/// endpoints lands exactly where expected.
pub proof fn lemma_mix1d_endpoints(a: int, b: int, w: int)
    ensures
        spec_mix1d(a, b, 0) == a,
        spec_mix1d(a, b, 1000) == b,
        spec_mix1d(a, a, w) == a,
{
    assert((b - a) * 0 == 0) by (nonlinear_arith);
    assert((b - a) * 1000 == (b - a) * 1000);
    lemma_tdiv_exact(0, 1000);
    lemma_tdiv_exact(b - a, 1000);
    assert((a - a) * w == 0) by (nonlinear_arith);
}

/// r is the rounded-down square root of x.
pub open spec fn is_floor_sqrt(r: int, x: int) -> bool {
    0 <= r && r * r <= x < (r + 1) * (r + 1)
}

/// The rounded-down square root itself: the one value the predicate
/// allows.
pub open spec fn floor_sqrt(x: int) -> int {
    choose|r: int| is_floor_sqrt(r, x)
}

/// No value has two rounded-down square roots.
pub proof fn lemma_floor_sqrt_unique(r1: int, r2: int, x: int)
    requires
        is_floor_sqrt(r1, x),
        is_floor_sqrt(r2, x),
    ensures
        r1 == r2,
{
    if r1 < r2 {
        assert((r1 + 1) * (r1 + 1) <= r2 * r2) by (nonlinear_arith)
            requires
                0 <= r1 && r1 + 1 <= r2,
        ;
    }
    if r2 < r1 {
        assert((r2 + 1) * (r2 + 1) <= r1 * r1) by (nonlinear_arith)
            requires
                0 <= r2 && r2 + 1 <= r1,
        ;
    }
}

/// The integer square root: the greatest r with r * r <= x.
pub fn isqrt64(x: u64) -> (r: u64)
    ensures
        r * r <= x < (r + 1) * (r + 1),
        r == floor_sqrt(x as int),
{
    let mut lo: u64 = 0;
    let mut hi: u64 = 0x1_0000_0000;
    while lo + 1 < hi
        invariant
            lo < hi <= 0x1_0000_0000,
            lo * lo <= x,
            (x as int) < (hi as int) * (hi as int),
        decreases hi - lo,
    {
        let mid = lo + (hi - lo) / 2;
        proof {
            assert(mid * mid <= 0xffff_ffff * 0xffff_ffff) by (nonlinear_arith)
                requires
                    0 <= mid <= 0xffff_ffff,
            ;
        }
        if mid * mid <= x {
            lo = mid;
        } else {
            hi = mid;
        }
    }
    proof {
        assert(is_floor_sqrt(lo as int, x as int));
        lemma_floor_sqrt_unique(floor_sqrt(x as int), lo as int, x as int);
    }
    lo
}

} // verus!
