//! Fixed-point arithmetic and slot arithmetic shared by the effect engines.
use vstd::prelude::*;
use vstd::arithmetic::div_mod::lemma_fundamental_div_mod;

verus! {

/// Unity in Q15: the amplitude 1.0 of a sample, or a wet share of 1.
pub const ONE: i32 = 32768;

/// Unity in Q30 (`ONE * ONE`): the amplitude 1.0 of a delay-line value, or a
/// feedback gain of 1.
pub const UNIT: i64 = 0x4000_0000;

/// Absolute value.
pub open spec fn abs(x: int) -> int {
    if x < 0 {
        -x
    } else {
        x
    }
}

/// Division rounding toward zero, as integer division does in Rust.
pub open spec fn div_trunc(a: int, b: int) -> int {
    if a >= 0 {
        a / b
    } else {
        -((-a) / b)
    }
}

/// `x` multiplied by the Q30 gain `g`, rounded toward zero.
pub open spec fn scale(g: int, x: int) -> int {
    div_trunc(g * x, UNIT as int)
}

/// The dry/wet mix of one frame, `(1 - wet) * dry_in + wet * delayed`, of a
/// Q15 wet share and Q30 values, kept unrounded: in Q45 (`ONE * UNIT` is 1.0).
pub open spec fn mix(wet: int, dry_in: int, delayed: int) -> int {
    (ONE - wet) * dry_in + wet * delayed
}

/// `v` limited to the range `[lo, hi]`.
pub open spec fn clamp(v: int, lo: int, hi: int) -> int {
    if v < lo {
        lo
    } else if v > hi {
        hi
    } else {
        v
    }
}

/// Largest magnitude of an intermediate product that the engines form.
pub const PRODUCT_LIMIT: i128 = 0x4000_0000_0000_0000_0000_0000_0000_0000;

/// Multiplication by a Q30 gain on exec values.
pub fn mul_gain(g: i128, x: i128) -> (r: i128)
    requires
        abs(g * x) < PRODUCT_LIMIT,
    ensures
        r == scale(g as int, x as int),
{
    g * x / (UNIT as i128)
}

/// A division by `ONE` of a value bounded by `ONE * b` is bounded by `b`.
pub proof fn lemma_div_trunc_bound(x: int, b: int)
    requires
        abs(x) <= ONE * b,
    ensures
        abs(div_trunc(x, ONE as int)) <= b,
        x == 0 ==> div_trunc(x, ONE as int) == 0,
{
    if x >= 0 {
        assert(x / (ONE as int) <= b) by (nonlinear_arith)
            requires x <= 32768 * b, x >= 0;
    } else {
        assert((-x) / (ONE as int) <= b) by (nonlinear_arith)
            requires -x <= 32768 * b, -x >= 0;
    }
}

/// A gain in `[0, UNIT]` never enlarges a magnitude.
pub proof fn lemma_scale_shrinks(g: int, x: int)
    requires
        0 <= g <= UNIT,
    ensures
        abs(scale(g, x)) <= abs(x),
        x >= 0 ==> 0 <= scale(g, x) <= x,
        x <= 0 ==> x <= scale(g, x) <= 0,
        scale(g, 0) == 0,
        scale(0, x) == 0,
{
    let m = UNIT as int;
    let p = g * x;
    assert(abs(p) <= m * abs(x)) by (nonlinear_arith)
        requires 0 <= g <= m, p == g * x;
    assert(p >= 0 <== x >= 0) by (nonlinear_arith)
        requires 0 <= g, p == g * x;
    assert(p <= 0 <== x <= 0) by (nonlinear_arith)
        requires 0 <= g, p == g * x;
    if p >= 0 {
        assert(p / m <= abs(x)) by (nonlinear_arith)
            requires p <= m * abs(x), p >= 0, m == 0x4000_0000;
    } else {
        assert((-p) / m <= abs(x)) by (nonlinear_arith)
            requires -p <= m * abs(x), -p >= 0, m == 0x4000_0000;
    }
    assert((0 as int) * x == 0);
    assert(g * 0 == 0);
}

/// Full scale multiplied by a gain is the gain itself.
pub proof fn lemma_scale_unit(g: int)
    ensures
        scale(g, UNIT as int) == g,
{
    if g >= 0 {
        assert(g * 0x4000_0000 / 0x4000_0000 == g) by (nonlinear_arith);
    } else {
        assert((-(g * 0x4000_0000)) / 0x4000_0000 == -g) by (nonlinear_arith);
    }
}

/// Bound on the product of two magnitudes.
pub proof fn lemma_mul_bound(a: int, b: int, ba: int, bb: int)
    requires
        abs(a) <= ba,
        abs(b) <= bb,
    ensures
        abs(a * b) <= ba * bb,
{
    assert(abs(a * b) == abs(a) * abs(b)) by (nonlinear_arith);
    assert(abs(a) * abs(b) <= ba * bb) by (nonlinear_arith)
        requires abs(a) <= ba, abs(b) <= bb, 0 <= abs(a), 0 <= abs(b);
}

/// Two frames less than a line length apart never share a slot of a
/// circular line of length `d`.
pub proof fn lemma_mod_distinct(t: int, i: int, d: int)
    requires
        t < i,
        i - t < d,
    ensures
        t % d != i % d,
{
    lemma_fundamental_div_mod(t, d);
    lemma_fundamental_div_mod(i, d);
    if t % d == i % d {
        let k = i / d - t / d;
        assert(i - t == d * k) by (nonlinear_arith)
            requires
                i == d * (i / d) + i % d,
                t == d * (t / d) + t % d,
                t % d == i % d,
                k == i / d - t / d,
        ;
        assert(false) by (nonlinear_arith)
            requires
                0 < d * k,
                d * k < d,
                d >= 1,
        ;
    }
}

} // verus!
