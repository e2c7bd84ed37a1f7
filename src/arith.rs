//! Integer division helpers shared by the rasterizer.

use vstd::prelude::*;

verus! {

/// Floor of `n / d` for a positive `d` (the Euclidean quotient).
pub open spec fn floor_div(n: int, d: int) -> int {
    n / d
}

/// Quotient of `n / d` rounded toward zero, for a positive `d`.
pub open spec fn trunc_div(n: int, d: int) -> int {
    if n >= 0 {
        n / d
    } else {
        -((-n) / d)
    }
}

/// A quotient is bounded by the bounds that multiply out around its dividend.
pub proof fn lemma_div_between(x: int, d: int, lo: int, hi: int)
    requires
        d > 0,
        lo * d <= x,
        x < (hi + 1) * d,
    ensures
        lo <= x / d <= hi,
{
    vstd::arithmetic::div_mod::lemma_fundamental_div_mod(x, d);
    let q = x / d;
    let r = x % d;
    assert(0 <= r < d);
    assert(lo <= q) by (nonlinear_arith)
        requires
            d > 0,
            lo * d <= x,
            x == d * q + r,
            r < d,
    {}
    assert(q <= hi) by (nonlinear_arith)
        requires
            d > 0,
            x < (hi + 1) * d,
            x == d * q + r,
            0 <= r,
    {}
}

/// Rounding toward zero keeps a quotient inside integer bounds that hold of
/// the exact quotient.
pub proof fn lemma_trunc_div_between(x: int, d: int, lo: int, hi: int)
    requires
        d > 0,
        lo * d <= x,
        x <= hi * d,
    ensures
        lo <= trunc_div(x, d) <= hi,
{
    if x >= 0 {
        assert(x < (hi + 1) * d) by (nonlinear_arith)
            requires
                x <= hi * d,
                d > 0,
        {}
        lemma_div_between(x, d, lo, hi);
    } else {
        assert((-hi) * d <= -x) by (nonlinear_arith)
            requires
                x <= hi * d,
        {}
        assert(-x < (-lo + 1) * d) by (nonlinear_arith)
            requires
                lo * d <= x,
                d > 0,
        {}
        lemma_div_between(-x, d, -hi, -lo);
    }
}

/// Floor division of a 128-bit dividend by a positive divisor.
pub fn floor_div_i128(n: i128, d: i128) -> (r: i128)
    requires
        d > 0,
        n > i128::MIN,
    ensures
        r == floor_div(n as int, d as int),
{
    let t = n / d;
    proof {
        let m: int = if n < 0 { -n } else { n as int };
        let di = d as int;
        vstd::arithmetic::div_mod::lemma_fundamental_div_mod(m, di);
        let q = m / di;
        let r = m % di;
        assert(0 <= r);
        assert(0 <= q * di <= m) by (nonlinear_arith)
            requires
                m == di * q + r,
                0 <= r < di,
                di > 0,
                m >= 0,
        {}
        assert(t == if n < 0 { -q } else { q });
        assert(t * di == if n < 0 { -(q * di) } else { q * di }) by (nonlinear_arith)
            requires
                t == if n < 0 { -q } else { q },
        {}
    }
    if n < 0 && t * d != n {
        proof {
            let q = (-n) / (d as int);
            let m = (-n) % (d as int);
            vstd::arithmetic::div_mod::lemma_fundamental_div_mod(-n, d as int);
            assert(t == -q);
            assert(m != 0) by (nonlinear_arith)
                requires
                    -n == d * q + m,
                    t == -q,
                    t * d != n,
            {}
            assert(n == (-q - 1) * d + (d - m)) by (nonlinear_arith)
                requires
                    -n == d * q + m,
            {}
            vstd::arithmetic::div_mod::lemma_fundamental_div_mod_converse_div(
                n as int,
                d as int,
                -q - 1,
                d - m,
            );
        }
        t - 1
    } else {
        proof {
            if n < 0 {
                let q = (-n) / (d as int);
                assert(t == -q);
                vstd::arithmetic::div_mod::lemma_fundamental_div_mod_converse_div(
                    n as int,
                    d as int,
                    -q,
                    0,
                );
            }
        }
        t
    }
}

/// Quotient rounded toward zero, as Rust's integer division gives it.
pub fn trunc_div_i128(n: i128, d: i128) -> (r: i128)
    requires
        d > 0,
        n > i128::MIN,
    ensures
        r == trunc_div(n as int, d as int),
{
    n / d
}

} // verus!
