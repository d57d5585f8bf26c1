use vstd::prelude::*;

verus! {

/// Number of integer units in one metre, and in the ratio one.
pub const UNIT: i64 = 1000;

/// Largest magnitude of a planar coordinate that a cloth grid may cover.
pub const COORD_LIMIT: i64 = 0x100_0000_0000;

/// Classification code of a point that belongs to no class.
pub const UNCLASSIFIED: u8 = 1;

/// Classification code of a ground point.
pub const GROUND: u8 = 2;

/// Floor of `a / b` for a positive divisor.
pub open spec fn floor_div(a: int, b: int) -> int
    recommends
        b > 0,
{
    a / b
}

/// Ceiling of `a / b` for a positive divisor.
pub open spec fn ceil_div(a: int, b: int) -> int
    recommends
        b > 0,
{
    -((-a) / b)
}

/// Quotient of `a / b` rounded toward zero, for a positive divisor.
pub open spec fn trunc_div(a: int, b: int) -> int
    recommends
        b > 0,
{
    if a >= 0 {
        a / b
    } else {
        -((-a) / b)
    }
}

/// The floor of a quotient is the one integer `q` with `q * b <= a < (q + 1) * b`.
pub proof fn lemma_floor_div_bounds(a: int, b: int)
    requires
        b > 0,
    ensures
        floor_div(a, b) * b <= a < (floor_div(a, b) + 1) * b,
{
    vstd::arithmetic::div_mod::lemma_fundamental_div_mod(a, b);
    vstd::arithmetic::div_mod::lemma_mod_bound(a, b);
    assert(b * (a / b) == (a / b) * b) by (nonlinear_arith);
    assert((a / b + 1) * b == (a / b) * b + b) by (nonlinear_arith);
}

/// Any `q` with `q * b <= a < (q + 1) * b` is the floor of `a / b`.
pub proof fn lemma_floor_div_unique(a: int, b: int, q: int)
    requires
        b > 0,
        q * b <= a < (q + 1) * b,
    ensures
        floor_div(a, b) == q,
{
    lemma_floor_div_bounds(a, b);
    let f = floor_div(a, b);
    if f < q {
        assert((f + 1) * b <= q * b) by (nonlinear_arith)
            requires
                f + 1 <= q,
                b > 0,
        ;
    } else if f > q {
        assert((q + 1) * b <= f * b) by (nonlinear_arith)
            requires
                q + 1 <= f,
                b > 0,
        ;
    }
}

/// The ceiling of a quotient is the one integer `q` with `(q - 1) * b < a <= q * b`.
pub proof fn lemma_ceil_div_bounds(a: int, b: int)
    requires
        b > 0,
    ensures
        (ceil_div(a, b) - 1) * b < a <= ceil_div(a, b) * b,
{
    lemma_floor_div_bounds(-a, b);
    let f = floor_div(-a, b);
    assert((-f - 1) * b == -((f + 1) * b)) by (nonlinear_arith);
    assert((-f) * b == -(f * b)) by (nonlinear_arith);
}

/// Any `q` with `(q - 1) * b < a <= q * b` is the ceiling of `a / b`.
pub proof fn lemma_ceil_div_unique(a: int, b: int, q: int)
    requires
        b > 0,
        (q - 1) * b < a <= q * b,
    ensures
        ceil_div(a, b) == q,
{
    assert((-q) * b == -(q * b)) by (nonlinear_arith);
    assert((-q + 1) * b == -((q - 1) * b)) by (nonlinear_arith);
    lemma_floor_div_unique(-a, b, -q);
}

/// Counting up by one raises the ceiling of a quotient exactly when the
/// count was a multiple of the divisor.
pub proof fn lemma_ceil_div_step(s: int, n: int)
    requires
        s >= 0,
        n > 0,
    ensures
        ceil_div(s + 1, n) == ceil_div(s, n) + if s % n == 0 {
            1int
        } else {
            0int
        },
        ceil_div(0, n) == 0,
{
    let q = ceil_div(s, n);
    lemma_ceil_div_bounds(s, n);
    vstd::arithmetic::div_mod::lemma_fundamental_div_mod(s, n);
    vstd::arithmetic::div_mod::lemma_mod_bound(s, n);
    assert((q + 1) * n == q * n + n) by (nonlinear_arith);
    assert((q - 1) * n == q * n - n) by (nonlinear_arith);
    if s % n == 0 {
        let d = s / n;
        assert(n * d == d * n) by (nonlinear_arith);
        assert((d - 1) * n == d * n - n) by (nonlinear_arith);
        lemma_ceil_div_unique(s, n, d);
        lemma_ceil_div_unique(s + 1, n, q + 1);
    } else {
        if s == q * n {
            vstd::arithmetic::div_mod::lemma_mod_multiples_basic(q, n);
        }
        lemma_ceil_div_unique(s + 1, n, q);
    }
    assert((0 - 1) * n < 0 <= 0 * n) by (nonlinear_arith)
        requires
            n > 0,
    ;
    lemma_ceil_div_unique(0, n, 0);
}

/// Floor of `a / b` in machine integers.
pub fn floor_div_exec(a: i128, b: i128) -> (q: i128)
    requires
        b > 0,
        -0x4000_0000_0000_0000_0000_0000 < a < 0x4000_0000_0000_0000_0000_0000,
        b < 0x4000_0000_0000_0000_0000_0000,
    ensures
        q == floor_div(a as int, b as int),
{
    if a >= 0 {
        a / b
    } else {
        let m: i128 = -a;
        let t: i128 = (m + b - 1) / b;
        proof {
            // -a = m, and ceil(m / b) = (m + b - 1) / b
            lemma_floor_div_bounds(m + b - 1, b as int);
            let tt = (m + b - 1) / (b as int);
            assert(tt * b <= m + b - 1 < (tt + 1) * b);
            assert((-tt) * b == -(tt * b)) by (nonlinear_arith);
            assert((-tt + 1) * b == -(tt * b) + b) by (nonlinear_arith);
            assert((tt + 1) * b == tt * b + b) by (nonlinear_arith);
            lemma_floor_div_unique(a as int, b as int, -tt);
        }
        -t
    }
}

/// Ceiling of `a / b` in machine integers.
pub fn ceil_div_exec(a: i128, b: i128) -> (q: i128)
    requires
        b > 0,
        -0x4000_0000_0000_0000_0000_0000 < a < 0x4000_0000_0000_0000_0000_0000,
        b < 0x4000_0000_0000_0000_0000_0000,
    ensures
        q == ceil_div(a as int, b as int),
{
    let f: i128 = floor_div_exec(-a, b);
    proof {
        lemma_floor_div_bounds(-a, b as int);
        assert(-0x4000_0000_0000_0000_0000_0000 <= f <= 0x4000_0000_0000_0000_0000_0000)
            by (nonlinear_arith)
            requires
                f * b <= -a < (f + 1) * b,
                b > 0,
                -0x4000_0000_0000_0000_0000_0000 < a < 0x4000_0000_0000_0000_0000_0000,
        ;
    }
    -f
}

/// Quotient of `a / b` rounded toward zero, in machine integers.
pub fn trunc_div_exec(a: i128, b: i128) -> (q: i128)
    requires
        b > 0,
        -0x4000_0000_0000_0000_0000_0000 < a < 0x4000_0000_0000_0000_0000_0000,
    ensures
        q == trunc_div(a as int, b as int),
{
    if a >= 0 {
        a / b
    } else {
        let m: i128 = -a;
        let t: i128 = m / b;
        -t
    }
}

} // verus!
