//! Double-precision arithmetic on bit patterns.
//!
//! Token counts are persisted as IEEE 754 doubles, so every step that moves a
//! bucket from one stored state to the next must round exactly as a double
//! does. This module works on the bit patterns of non-negative doubles with
//! integers alone. Each operation is proved to return the double nearest to
//! the exact result, ties going to the even significand.
//!
//! The smallest positive double is the unit of measure: [`units`] gives the
//! value of a bit pattern as a whole number of them, and `pow2(1074)` of them
//! make one.
use vstd::arithmetic::div_mod::*;
use vstd::arithmetic::power2::*;
use vstd::prelude::*;

verus! {

/// Number of bit patterns that share one exponent: two to the power 52.
pub const BINADE: u64 = 0x10_0000_0000_0000;

/// The bit pattern of positive infinity. Every smaller pattern is a finite,
/// non-negative double.
pub const INFINITY: u64 = 0x7ff0_0000_0000_0000;

/// The value of the bit pattern `b`, in multiples of the smallest positive
/// double.
pub open spec fn units(b: int) -> nat {
    if b < BINADE {
        b as nat
    } else {
        ((BINADE + b % (BINADE as int)) * pow2((b / (BINADE as int) - 1) as nat)) as nat
    }
}

/// How many units make one.
pub open spec fn one() -> nat {
    pow2(1074)
}

/// `b` is the bit pattern nearest to `n / d` units, the even one of two that
/// are equally near. Patterns are in the order of their values, so it is
/// enough to compare with the midpoints to the two neighbours.
pub open spec fn nearest(n: nat, d: nat, b: int) -> bool {
    &&& 0 <= b
    &&& b > 0 ==> {
        let low = d * (units(b - 1) + units(b));
        low < 2 * n || (low == 2 * n && b % 2 == 0)
    }
    &&& {
        let high = d * (units(b) + units(b + 1));
        2 * n < high || (2 * n == high && b % 2 == 0)
    }
}

/// The double that stands for `n / d` units: the nearest one, or infinity
/// where the nearest lies beyond the finite doubles.
pub open spec fn round(n: nat, d: nat) -> u64 {
    let b = choose|b: int| nearest(n, d, b);
    if b < INFINITY {
        b as u64
    } else {
        INFINITY
    }
}

/// Over one exponent the value is linear in the pattern.
proof fn lemma_units_at(u: nat, k: int)
    requires
        0 <= k <= 2 * BINADE,
        u > 0 ==> BINADE <= k,
    ensures
        units(u * BINADE + k) == k * pow2(u),
{
    lemma_pow2_pos(u);
    if u == 0 && k < BINADE {
        assert(pow2(0) == 1) by {
            lemma2_to64();
        }
        assert(k * pow2(0) == k);
    } else {
        let b = u * BINADE + k;
        if k == 2 * BINADE {
            assert(b / (BINADE as int) == u + 2 && b % (BINADE as int) == 0);
            lemma_pow2_unfold(u + 1);
            assert(BINADE * pow2(u + 1) == 2 * BINADE * pow2(u)) by (nonlinear_arith)
                requires
                    pow2(u + 1) == 2 * pow2(u),
            ;
        } else {
            assert(b / (BINADE as int) == u + 1 && b % (BINADE as int) == k - BINADE);
        }
    }
}

proof fn lemma_units_step(b: int)
    requires
        0 <= b,
    ensures
        units(b) < units(b + 1),
{
    let u: nat = if b < 2 * BINADE {
        0
    } else {
        (b / (BINADE as int) - 1) as nat
    };
    let k = b - u * BINADE;
    lemma_units_at(u, k);
    lemma_units_at(u, k + 1);
    lemma_pow2_pos(u);
    assert((k + 1) * pow2(u) == k * pow2(u) + pow2(u)) by (nonlinear_arith);
}

/// The order of the patterns is the order of the values.
pub proof fn lemma_units_increase(a: int, b: int)
    requires
        0 <= a < b,
    ensures
        units(a) < units(b),
    decreases b - a,
{
    lemma_units_step(b - 1);
    if a < b - 1 {
        lemma_units_increase(a, b - 1);
    }
}

/// What rounds no further down than `n / d` and stays below the midpoint.
proof fn lemma_nearest_below(n: nat, d: nat, b: int)
    requires
        0 < d,
        0 <= b,
        d * units(b) <= n,
        2 * n < d * (units(b) + units(b + 1)) || (2 * n == d * (units(b) + units(b + 1)) && b % 2 == 0),
    ensures
        nearest(n, d, b),
{
    if b > 0 {
        lemma_units_step(b - 1);
        let x = units(b - 1);
        let y = units(b);
        assert(d * (x + y) < 2 * (d * y)) by (nonlinear_arith)
            requires
                x < y,
                0 < d,
        ;
    }
}

proof fn lemma_nearest_above(n: nat, d: nat, b: int)
    requires
        0 < d,
        0 < b,
        n <= d * units(b),
        d * (units(b - 1) + units(b)) < 2 * n || (2 * n == d * (units(b - 1) + units(b)) && b % 2 == 0),
    ensures
        nearest(n, d, b),
{
    lemma_units_step(b);
    let x = units(b);
    let y = units(b + 1);
    assert(2 * (d * x) < d * (x + y)) by (nonlinear_arith)
        requires
            x < y,
            0 < d,
    ;
}

/// A larger exact value has no smaller pattern.
proof fn lemma_nearest_ordered(n1: nat, d1: nat, b1: int, n2: nat, d2: nat, b2: int)
    requires
        0 < d1,
        0 < d2,
        n1 * d2 <= n2 * d1,
        nearest(n1, d1, b1),
        nearest(n2, d2, b2),
    ensures
        b1 <= b2,
{
    if b1 > b2 {
        let x1 = units(b1 - 1) + units(b1);
        let x2 = units(b2) + units(b2 + 1);
        if b1 - 1 > b2 {
            lemma_units_increase(b2, b1 - 1);
            lemma_units_increase(b2 + 1, b1);
        }
        assert(x2 <= x1);
        assert(d1 * x1 <= 2 * n1);
        assert(2 * n2 <= d2 * x2);
        assert(d2 * (d1 * x1) <= d2 * (2 * n1)) by (nonlinear_arith)
            requires
                d1 * x1 <= 2 * n1,
                0 < d2,
        ;
        assert(d1 * (2 * n2) <= d1 * (d2 * x2)) by (nonlinear_arith)
            requires
                2 * n2 <= d2 * x2,
                0 < d1,
        ;
        assert(d2 * (2 * n1) == 2 * (n1 * d2)) by (nonlinear_arith);
        assert(d1 * (2 * n2) == 2 * (n2 * d1)) by (nonlinear_arith);
        assert(d2 * (d1 * x1) == (d1 * d2) * x1) by (nonlinear_arith);
        assert(d1 * (d2 * x2) == (d1 * d2) * x2) by (nonlinear_arith);
        assert((d1 * d2) * x2 <= (d1 * d2) * x1) by (nonlinear_arith)
            requires
                x2 <= x1,
                0 < d1,
                0 < d2,
        ;
        // Every inequality above is an equality, so both patterns are even
        // and adjacent.
        if x2 < x1 {
            assert((d1 * d2) * x2 < (d1 * d2) * x1) by (nonlinear_arith)
                requires
                    x2 < x1,
                    0 < d1,
                    0 < d2,
            ;
        }
        assert(b1 == b2 + 1) by {
            if b1 - 1 > b2 {
                assert(x2 < x1);
            }
        }
        assert(d2 * (d1 * x1) == d2 * (2 * n1));
        assert(d1 * x1 == 2 * n1) by (nonlinear_arith)
            requires
                d2 * (d1 * x1) == d2 * (2 * n1),
                0 < d2,
        ;
        assert(d2 * x2 == 2 * n2) by (nonlinear_arith)
            requires
                d1 * (d2 * x2) == d1 * (2 * n2),
                0 < d1,
        ;
    }
}

/// Some pattern is nearest: the search starts at `b`, whose value is not above
/// `n / d`.
proof fn lemma_nearest_exists_from(n: nat, d: nat, b: int)
    requires
        0 < d,
        0 <= b,
        d * units(b) <= n,
    ensures
        exists|c: int| nearest(n, d, c),
    decreases n - units(b),
{
    lemma_units_step(b);
    let x = units(b);
    let y = units(b + 1);
    if d * y <= n {
        assert(x < n) by (nonlinear_arith)
            requires
                x < y,
                d * y <= n,
                0 < d,
        ;
        assert(y <= n) by (nonlinear_arith)
            requires
                d * y <= n,
                0 < d,
        ;
        lemma_nearest_exists_from(n, d, b + 1);
    } else {
        let mid = d * (x + y);
        if 2 * n < mid || (2 * n == mid && b % 2 == 0) {
            lemma_nearest_below(n, d, b);
            assert(nearest(n, d, b));
        } else {
            lemma_nearest_above(n, d, b + 1);
            assert(nearest(n, d, b + 1));
        }
    }
}

proof fn lemma_nearest_exists(n: nat, d: nat)
    requires
        0 < d,
    ensures
        exists|c: int| nearest(n, d, c),
{
    assert(d * 0 == 0);
    assert(units(0) == 0);
    lemma_nearest_exists_from(n, d, 0);
}

/// Rounding is determined by the nearest pattern.
proof fn lemma_round_is(n: nat, d: nat, b: int)
    requires
        0 < d,
        nearest(n, d, b),
    ensures
        round(n, d) == (if b < INFINITY {
            b as u64
        } else {
            INFINITY
        }),
{
    let c = choose|c: int| nearest(n, d, c);
    lemma_nearest_ordered(n, d, b, n, d, c);
    lemma_nearest_ordered(n, d, c, n, d, b);
}

/// Rounding gives a finite double or infinity.
pub proof fn lemma_round_at_most_infinity(n: nat, d: nat)
    requires
        0 < d,
    ensures
        round(n, d) <= INFINITY,
{
    lemma_nearest_exists(n, d);
}

/// A product is a finite double or infinity.
pub proof fn lemma_product_at_most_infinity(a: u64, b: u64)
    ensures
        product(a, b) <= INFINITY,
{
    lemma_pow2_pos(1074);
    lemma_round_at_most_infinity(units(a as int) * units(b as int), one());
}

/// A quotient is a finite double or infinity.
pub proof fn lemma_quotient_at_most_infinity(a: u64, b: u64)
    requires
        0 < b,
    ensures
        quotient(a, b) <= INFINITY,
{
    lemma_units_increase(0, b as int);
    lemma_round_at_most_infinity(units(a as int) * one(), units(b as int));
}

/// Rounding keeps order.
pub proof fn lemma_round_ordered(n1: nat, d1: nat, n2: nat, d2: nat)
    requires
        0 < d1,
        0 < d2,
        n1 * d2 <= n2 * d1,
    ensures
        round(n1, d1) <= round(n2, d2),
{
    lemma_nearest_exists(n1, d1);
    lemma_nearest_exists(n2, d2);
    let b1 = choose|b: int| nearest(n1, d1, b);
    let b2 = choose|b: int| nearest(n2, d2, b);
    lemma_nearest_ordered(n1, d1, b1, n2, d2, b2);
}

/// A value that is a double rounds to itself.
pub proof fn lemma_round_exact(d: nat, b: int)
    requires
        0 < d,
        0 <= b < INFINITY,
    ensures
        round(d * units(b), d) == b,
{
    lemma_units_step(b);
    let x = units(b);
    let y = units(b + 1);
    assert(2 * (d * x) < d * (x + y)) by (nonlinear_arith)
        requires
            x < y,
            0 < d,
    ;
    lemma_nearest_below(d * units(b), d, b);
    lemma_round_is(d * units(b), d, b);
}

/// Offset that makes every exponent in use non-negative.
spec fn scale() -> nat {
    2200
}

/// Two to the power `e`.
fn power(e: u32) -> (p: u128)
    requires
        e <= 127,
    ensures
        p == pow2(e as nat),
        p > 0,
{
    let mut p: u128 = 1;
    let mut i: u32 = 0;
    proof {
        lemma2_to64();
    }
    while i < e
        invariant
            i <= e <= 127,
            p == pow2(i as nat),
            p > 0,
        decreases e - i,
    {
        proof {
            lemma_pow2_unfold((i + 1) as nat);
            lemma_pow2_at_127(i as nat + 1);
        }
        p = p * 2;
        i = i + 1;
    }
    p
}

/// Powers of two up to the exponent 127 fit in 128 bits.
proof fn lemma_pow2_at_127(e: nat)
    requires
        e <= 127,
    ensures
        0 < pow2(e) <= 0x8000_0000_0000_0000_0000_0000_0000_0000u128,
        e <= 126 ==> pow2(e) <= 0x4000_0000_0000_0000_0000_0000_0000_0000u128,
{
    lemma_pow2_pos(e);
    lemma2_to64();
    lemma2_to64_rest();
    lemma_pow2_adds(64, 63);
    lemma_pow2_adds(64, 62);
    assert(0x1_0000_0000_0000_0000int * 0x8000_0000_0000_0000int == 0x8000_0000_0000_0000_0000_0000_0000_0000int);
    assert(0x1_0000_0000_0000_0000int * 0x4000_0000_0000_0000int == 0x4000_0000_0000_0000_0000_0000_0000_0000int);
    if e < 127 {
        lemma_pow2_strictly_increases(e, 127);
    }
    if e < 126 {
        lemma_pow2_strictly_increases(e, 126);
    }
}

/// How many binary digits `m` has.
fn bit_length(m: u128) -> (l: u32)
    requires
        0 < m < 0x8000_0000_0000_0000_0000_0000_0000_0000,
    ensures
        1 <= l <= 127,
        pow2((l - 1) as nat) <= m < pow2(l as nat),
{
    let mut l: u32 = 1;
    let mut p: u128 = 2;
    proof {
        lemma2_to64();
        lemma2_to64_rest();
        lemma_pow2_adds(64, 63);
        assert(0x1_0000_0000_0000_0000int * 0x8000_0000_0000_0000int == 0x8000_0000_0000_0000_0000_0000_0000_0000int);
    }
    while p <= m
        invariant
            1 <= l <= 127,
            p == pow2(l as nat),
            pow2((l - 1) as nat) <= m,
            m < 0x8000_0000_0000_0000_0000_0000_0000_0000,
            pow2(127) == 0x8000_0000_0000_0000_0000_0000_0000_0000u128,
        decreases 127 - l,
    {
        proof {
            lemma_pow2_unfold((l + 1) as nat);
            lemma_pow2_at_127(l as nat);
            if l < 127 {
                lemma_pow2_at_127((l + 1) as nat);
            }
        }
        p = p * 2;
        l = l + 1;
    }
    l
}

/// The fraction `r / p` that a significand `k` drops decides where the exact
/// value lies: below, at or above the midpoint of `k` and `k + 1`. Here `t` is
/// the worth of one of `m = k * p + r`, `x` that of one of `k`, both over `s`.
proof fn lemma_dropped(n: nat, s: nat, t: nat, x: nat, m: nat, k: nat, p: nat, r: nat, exact: bool)
    requires
        0 < s,
        0 < t,
        0 < p,
        p % 2 == 0,
        m == k * p + r,
        r < p,
        p * t == x * s,
        exact ==> n * s == m * t,
        !exact ==> m * t < n * s < (m + 1) * t,
    ensures
        k * x <= n <= (k + 1) * x,
        r < p / 2 ==> 2 * n < (2 * k + 1) * x,
        r == p / 2 && exact ==> 2 * n == (2 * k + 1) * x,
        r > p / 2 || (r == p / 2 && !exact) ==> (2 * k + 1) * x < 2 * n,
{
    let h = p / 2;
    assert(p == 2 * h);
    assert(m * t == k * (x * s) + r * t) by (nonlinear_arith)
        requires
            m == k * p + r,
            p * t == x * s,
    ;
    assert((m + 1) * t == m * t + t) by (nonlinear_arith);
    assert(k * (x * s) == (k * x) * s) by (nonlinear_arith);
    assert(((k + 1) * x) * s == (k * x) * s + x * s) by (nonlinear_arith);
    assert(2 * (h * t) == x * s) by (nonlinear_arith)
        requires
            p * t == x * s,
            p == 2 * h,
    ;
    assert(((2 * k + 1) * x) * s == 2 * ((k * x) * s) + x * s) by (nonlinear_arith);
    assert(r * t >= 0) by (nonlinear_arith);
    assert(r * t + t <= p * t) by (nonlinear_arith)
        requires
            r + 1 <= p,
    ;
    assert((k * x) * s <= n * s <= ((k + 1) * x) * s);
    assert(k * x <= n) by (nonlinear_arith)
        requires
            (k * x) * s <= n * s,
            0 < s,
    ;
    assert(n <= (k + 1) * x) by (nonlinear_arith)
        requires
            n * s <= ((k + 1) * x) * s,
            0 < s,
    ;
    let mid = (2 * k + 1) * x;
    assert(2 * (n * s) == (2 * n) * s) by (nonlinear_arith);
    if r < h {
        assert(r * t + t <= h * t) by (nonlinear_arith)
            requires
                r + 1 <= h,
        ;
        assert((2 * n) * s < mid * s);
        assert(2 * n < mid) by (nonlinear_arith)
            requires
                (2 * n) * s < mid * s,
        ;
    } else if r == h && exact {
        assert((2 * n) * s == mid * s);
        assert(2 * n == mid) by (nonlinear_arith)
            requires
                (2 * n) * s == mid * s,
                0 < s,
        ;
    } else {
        if r > h {
            assert(h * t + t <= r * t) by (nonlinear_arith)
                requires
                    h + 1 <= r,
            ;
        }
        assert(mid * s < (2 * n) * s);
        assert(mid < 2 * n) by (nonlinear_arith)
            requires
                mid * s < (2 * n) * s,
        ;
    }
}

/// `n / d` units are `m * 2^e` exactly, or, where `sticky` is set, more than
/// that and less than `(m + 1) * 2^e`.
spec fn is_scaled(n: nat, d: nat, m: int, e: int, sticky: bool) -> bool {
    let w = pow2((e + scale()) as nat) * d;
    if sticky {
        m * w < n * pow2(scale()) < (m + 1) * w
    } else {
        n * pow2(scale()) == m * w
    }
}

/// Moving 54 binary digits from the exponent to the integer changes nothing.
proof fn lemma_scaled_widened(n: nat, d: nat, m: int, e: int)
    requires
        -2100 <= e,
        is_scaled(n, d, m, e, false),
    ensures
        is_scaled(n, d, m * 0x40_0000_0000_0000, e - 54, false),
{
    lemma_pow2_adds(54, (e - 54 + scale()) as nat);
    lemma2_to64_rest();
    let q = pow2((e - 54 + scale()) as nat);
    assert(m * ((0x40_0000_0000_0000 * q) * d) == (m * 0x40_0000_0000_0000) * (q * d))
        by (nonlinear_arith);
}

/// What is less than half a unit rounds to nothing.
proof fn lemma_scaled_tiny(n: nat, d: nat, m: int, e: int, sticky: bool)
    requires
        0 < d,
        0 < m < 0x8000_0000_0000_0000_0000_0000_0000_0000,
        -2200 <= e < -127,
        is_scaled(n, d, m, e, sticky),
    ensures
        round(n, d) == 0,
{
    let w = pow2((e + scale()) as nat);
    let big = pow2(scale());
    let low = pow2((127 + e + scale()) as nat);
    let half = pow2((scale() - 1) as nat);
    let p = pow2(127);
    lemma_pow2_pos((e + scale()) as nat);
    lemma_pow2_adds(127, (e + scale()) as nat);
    if 127 + e + scale() < scale() - 1 {
        lemma_pow2_strictly_increases((127 + e + scale()) as nat, (scale() - 1) as nat);
    }
    lemma_pow2_unfold(scale());
    lemma2_to64();
    lemma2_to64_rest();
    lemma_pow2_adds(64, 63);
    assert(m + 1 <= p);
    assert(0 < w * d) by (nonlinear_arith)
        requires
            0 < w,
            0 < d,
    ;
    assert((m + 1) * (w * d) <= p * (w * d)) by (nonlinear_arith)
        requires
            m + 1 <= p,
            0 < w * d,
    ;
    assert(m * (w * d) < (m + 1) * (w * d)) by (nonlinear_arith)
        requires
            0 < w * d,
    ;
    assert(p * (w * d) == low * d) by (nonlinear_arith)
        requires
            p * w == low,
    ;
    assert(low * d <= half * d) by (nonlinear_arith)
        requires
            low <= half,
    ;
    assert(n * big < half * d);
    assert(2 * n < d) by (nonlinear_arith)
        requires
            n * big < half * d,
            big == 2 * half,
    ;
    assert(units(0) == 0 && units(1) == 1);
    assert(d * 0 == 0 && d * 1 == d);
    lemma_nearest_below(n, d, 0);
    lemma_round_is(n, d, 0);
}

/// A number of `l` binary digits without its last `s` ones has at most 53 of
/// them, and just 53 where no more than needed were taken.
proof fn lemma_significand(m: nat, l: nat, s: nat, p: nat, k: nat, r: nat)
    requires
        54 <= l,
        l - 53 <= s,
        m < pow2(l),
        pow2((l - 1) as nat) <= m,
        p == pow2(s),
        m == p * k + r,
        r < p,
    ensures
        k < 2 * BINADE,
        s == l - 53 ==> BINADE <= k,
{
    lemma2_to64_rest();
    lemma_pow2_adds((l - 53) as nat, 53);
    lemma_pow2_adds((l - 53) as nat, 52);
    if l - 53 < s {
        lemma_pow2_strictly_increases((l - 53) as nat, s);
    }
    let q = pow2((l - 53) as nat);
    assert(k < 2 * BINADE) by (nonlinear_arith)
        requires
            p * k <= m,
            m < q * (2 * BINADE),
            q <= p,
    ;
    if s == l - 53 {
        assert(BINADE <= k) by (nonlinear_arith)
            requires
                m == p * k + r,
                r < p,
                p * BINADE <= m,
        ;
    }
}

/// The significand `k` at the exponent `u`, or the one above it where the
/// dropped digits `r` say so, is what `n / d` units round to.
#[verifier::rlimit(80)]
#[verifier::spinoff_prover]
proof fn lemma_scaled_rounds(
    n: nat,
    d: nat,
    m: nat,
    e: int,
    sticky: bool,
    s: nat,
    p: nat,
    k: nat,
    r: nat,
    up: bool,
)
    requires
        0 < d,
        -2200 <= e,
        is_scaled(n, d, m as int, e, sticky),
        0 < s,
        0 <= e + s,
        p == pow2(s),
        m == p * k + r,
        r < p,
        k < 2 * BINADE,
        e + s > 0 ==> BINADE <= k,
        up == (r > p / 2 || (r == p / 2 && (sticky || k % 2 == 1))),
    ensures
        ({
            let b = (e + s) * BINADE + k + if up {
                1int
            } else {
                0int
            };
            round(n, d) == if b < INFINITY {
                b
            } else {
                INFINITY as int
            }
        }),
{
    let u = (e + s) as nat;
    let w = pow2((e + scale()) as nat);
    let big = pow2(scale());
    let y = pow2(u);
    let x = y * d;
    lemma_pow2_pos((e + scale()) as nat);
    lemma_pow2_pos(scale());
    lemma_pow2_pos(s);
    lemma_pow2_unfold(s);
    lemma_pow2_adds(s, (e + scale()) as nat);
    lemma_pow2_adds(u, scale());
    assert(0 < w * d) by (nonlinear_arith)
        requires
            0 < w,
            0 < d,
    ;
    assert(p * (w * d) == x * big) by (nonlinear_arith)
        requires
            p * w == y * big,
            x == y * d,
    ;
    assert(m == k * p + r) by (nonlinear_arith)
        requires
            m == p * k + r,
    ;
    assert(p % 2 == 0);
    lemma_dropped(n, big, w * d, x, m, k, p, r, !sticky);
    let f = u * BINADE + k;
    lemma_units_at(u, k as int);
    lemma_units_at(u, k as int + 1);
    assert(f + 1 == u * BINADE + (k + 1));
    assert(d * (k * y) == k * (y * d)) by (nonlinear_arith);
    assert(d * ((k + 1) * y) == (k + 1) * (y * d)) by (nonlinear_arith);
    assert(d * (k * y + (k + 1) * y) == (2 * k + 1) * (y * d)) by (nonlinear_arith);
    assert(f % 2 == k as int % 2);
    if up {
        lemma_nearest_above(n, d, f + 1);
        lemma_round_is(n, d, f + 1);
    } else {
        lemma_nearest_below(n, d, f as int);
        lemma_round_is(n, d, f as int);
    }
}

/// Rounds `n / d` units, which are `m * 2^e` exactly, or, where `sticky` is
/// set, more than that and less than `(m + 1) * 2^e`.
fn round_scaled(
    m: u128,
    sticky: bool,
    e: i64,
    Ghost(n): Ghost<nat>,
    Ghost(d): Ghost<nat>,
) -> (b: u64)
    requires
        0 < d,
        0 < m < 0x8000_0000_0000_0000_0000_0000_0000_0000,
        sticky ==> 0x40_0000_0000_0000 <= m,
        -2100 <= e <= 3100,
        is_scaled(n, d, m as int, e as int, sticky),
    ensures
        b == round(n, d),
{
    let (m, e): (u128, i64) = if m < 0x40_0000_0000_0000 {
        proof {
            lemma_scaled_widened(n, d, m as int, e as int);
        }
        (m * 0x40_0000_0000_0000, e - 54)
    } else {
        (m, e)
    };
    let l: u32 = bit_length(m);
    proof {
        lemma2_to64_rest();
        if l < 54 {
            lemma_pow2_strictly_increases(l as nat, 54);
        }
    }
    let s: i64 = if l as i64 - 53 < -e {
        -e
    } else {
        l as i64 - 53
    };
    if s > 127 {
        proof {
            lemma_scaled_tiny(n, d, m as int, e as int, sticky);
        }
        return 0;
    }
    let u: i64 = e + s;
    let p: u128 = power(s as u32);
    let k: u128 = m / p;
    let r: u128 = m % p;
    let half: u128 = p / 2;
    let up: bool = r > half || (r == half && (sticky || k % 2 == 1));
    proof {
        lemma_fundamental_div_mod(m as int, p as int);
        lemma_significand(m as nat, l as nat, s as nat, p as nat, k as nat, r as nat);
        lemma_scaled_rounds(
            n,
            d,
            m as nat,
            e as int,
            sticky,
            s as nat,
            p as nat,
            k as nat,
            r as nat,
            up,
        );
    }
    let b: u64 = u as u64 * BINADE + k as u64 + if up {
        1u64
    } else {
        0u64
    };
    if b < INFINITY {
        b
    } else {
        INFINITY
    }
}

/// A finite pattern taken apart: its value is `m * 2^e` units.
fn split(b: u64) -> (parts: (u64, u32))
    requires
        b < INFINITY,
    ensures
        units(b as int) == parts.0 * pow2(parts.1 as nat),
        parts.0 < 2 * BINADE,
        parts.1 <= 2045,
        parts.1 > 0 ==> BINADE <= parts.0,
        b > 0 ==> parts.0 > 0,
        parts.1 * BINADE + parts.0 == b,
{
    if b < BINADE {
        proof {
            lemma2_to64();
            assert(b * 1 == b);
        }
        (b, 0)
    } else {
        (BINADE + b % BINADE, (b / BINADE - 1) as u32)
    }
}

/// The double of an integer.
pub open spec fn of_int(x: nat) -> u64 {
    round(x * one(), 1)
}

/// Converts an integer, as the cast to a double does.
pub fn from_u64(x: u64) -> (b: u64)
    ensures
        b == of_int(x as nat),
{
    proof {
        assert(0 * one() == 0);
    }
    if x == 0 {
        proof {
            lemma_round_exact(1, 0);
        }
        return 0;
    }
    proof {
        lemma_pow2_adds(1074, scale());
        let p = pow2(1074 + scale());
        assert((x * pow2(1074)) * pow2(scale()) == x * (p * 1)) by (nonlinear_arith)
            requires
                pow2(1074) * pow2(scale()) == p,
        ;
    }
    round_scaled(x as u128, false, 1074, Ghost((x * one()) as nat), Ghost(1))
}

/// The product of two doubles.
pub open spec fn product(a: u64, b: u64) -> u64 {
    round(units(a as int) * units(b as int), one())
}

/// Multiplies two finite doubles.
pub fn multiply(a: u64, b: u64) -> (c: u64)
    requires
        a < INFINITY,
        b < INFINITY,
    ensures
        c == product(a, b),
{
    let ghost n = units(a as int) * units(b as int);
    proof {
        lemma_pow2_pos(1074);
    }
    if a == 0 || b == 0 {
        proof {
            assert(n == 0) by (nonlinear_arith)
                requires
                    n == units(a as int) * units(b as int),
                    units(a as int) == 0 || units(b as int) == 0,
            ;
            assert(one() * 0 == 0);
            lemma_round_exact(one(), 0);
        }
        return 0;
    }
    let (ma, ea) = split(a);
    let (mb, eb) = split(b);
    assert(0 < ma * mb < 0x40_0000_0000_0000int * 0x40_0000_0000_0000int) by (nonlinear_arith)
        requires
            0 < ma < 0x40_0000_0000_0000,
            0 < mb < 0x40_0000_0000_0000,
    ;
    let m: u128 = ma as u128 * mb as u128;
    let e: i64 = ea as i64 + eb as i64 - 1074;
    proof {
        let x = pow2(ea as nat);
        let y = pow2(eb as nat);
        let g = pow2(scale());
        let f = pow2((e + scale()) as nat);
        lemma_pow2_adds(ea as nat, eb as nat);
        lemma_pow2_adds((ea + eb) as nat, scale());
        lemma_pow2_adds((e + scale()) as nat, 1074);
        assert(((ma * x) * (mb * y)) * g == (ma * mb) * (f * one())) by (nonlinear_arith)
            requires
                (x * y) * g == f * one(),
        ;
    }
    round_scaled(m, false, e, Ghost(n), Ghost(one()))
}

/// The quotient of two doubles.
pub open spec fn quotient(a: u64, b: u64) -> u64 {
    round(units(a as int) * one(), units(b as int))
}

/// Divides a finite double by a positive one.
pub fn divide(a: u64, b: u64) -> (c: u64)
    requires
        a < INFINITY,
        0 < b < INFINITY,
    ensures
        c == quotient(a, b),
{
    let ghost n = units(a as int) * one();
    let ghost d = units(b as int);
    proof {
        lemma_units_increase(0, b as int);
    }
    if a == 0 {
        proof {
            assert(n == 0) by (nonlinear_arith)
                requires
                    n == units(a as int) * one(),
                    units(a as int) == 0,
            ;
            assert(d * 0 == 0);
            lemma_round_exact(d, 0);
        }
        return 0;
    }
    let (ma, ea) = split(a);
    let (mb, eb) = split(b);
    let l: u32 = bit_length(ma as u128);
    proof {
        lemma2_to64_rest();
        if l > 53 {
            if l > 54 {
                lemma_pow2_strictly_increases(53, (l - 1) as nat);
            }
        }
        lemma_pow2_adds((53 - l) as nat, l as nat);
        lemma_pow2_adds((53 - l) as nat, (l - 1) as nat);
        lemma_pow2_at_127((53 - l) as nat);
    }
    let t: u128 = power(53 - l);
    proof {
        let low = pow2((l - 1) as nat);
        let high = pow2(l as nat);
        assert(BINADE <= ma * t < 2 * BINADE) by (nonlinear_arith)
            requires
                low <= ma < high,
                t * low == BINADE,
                t * high == 2 * BINADE,
                t > 0,
        ;
    }
    let top: u128 = ma as u128 * t * 0x200_0000_0000_0000_0000;
    let q: u128 = top / (mb as u128);
    let sticky: bool = top % (mb as u128) != 0;
    let e: i64 = ea as i64 - (53 - l as i64) - eb as i64 + 1074 - 73;
    proof {
        lemma_fundamental_div_mod(top as int, mb as int);
        let r = top % (mb as u128);
        assert(0x40_0000_0000_0000 <= q) by (nonlinear_arith)
            requires
                top == mb * q + r,
                0 <= r < mb,
                mb < 0x40_0000_0000_0000,
                top >= BINADE * 0x200_0000_0000_0000_0000,
        ;
        assert(q <= top) by (nonlinear_arith)
            requires
                top == mb * q + r,
                0 <= r,
                0 < mb,
        ;
        // n over d is top over mb, scaled by 2^e.
        let g = pow2(scale());
        let f = pow2((e + scale()) as nat);
        let xa = pow2(ea as nat);
        let xb = pow2(eb as nat);
        lemma_pow2_adds(64, 9);
        lemma2_to64();
        let z = pow2(73);
        assert(z == 0x200_0000_0000_0000_0000);
        lemma_pow2_adds(ea as nat, 1074);
        lemma_pow2_adds((ea + 1074) as nat, scale());
        lemma_pow2_adds((53 - l) as nat, 73);
        lemma_pow2_adds((53 - l + 73) as nat, (e + scale()) as nat);
        lemma_pow2_adds((53 - l + 73 + e + scale()) as nat, eb as nat);
        assert((xa * one()) * g == ((t * z) * f) * xb);
        assert(n * g == top * (f * xb)) by (nonlinear_arith)
            requires
                n == (ma * xa) * one(),
                top == (ma * t) * z,
                (xa * one()) * g == ((t * z) * f) * xb,
        ;
        assert(q * (f * d) + r * (f * xb) == top * (f * xb)) by (nonlinear_arith)
            requires
                top == mb * q + r,
                d == mb * xb,
        ;
        lemma_pow2_pos((e + scale()) as nat);
        lemma_pow2_pos(eb as nat);
        assert(0 < f * xb) by (nonlinear_arith)
            requires
                0 < f,
                0 < xb,
        ;
        assert((q + 1) * (f * d) == q * (f * d) + mb * (f * xb)) by (nonlinear_arith)
            requires
                d == mb * xb,
        ;
        assert(r * (f * xb) < mb * (f * xb)) by (nonlinear_arith)
            requires
                r < mb,
                0 < f * xb,
        ;
        if sticky {
            assert(0 < r * (f * xb)) by (nonlinear_arith)
                requires
                    0 < r,
                    0 < f * xb,
            ;
        } else {
            assert(r * (f * xb) == 0) by (nonlinear_arith)
                requires
                    r == 0,
            ;
        }
    }
    round_scaled(q, sticky, e, Ghost(n), Ghost(d))
}

/// A double that is more than 70 exponents below `a` is worth less than a
/// quarter of the step from `a` to its neighbours.
proof fn lemma_far_below(a: int, b: int, ma: int, ea: nat, mb: int, eb: nat)
    requires
        0 < a < INFINITY,
        0 <= mb < 2 * BINADE,
        BINADE <= ma < 2 * BINADE,
        a == ea * BINADE + ma,
        units(b) == mb * pow2(eb),
        ea > eb + 70,
    ensures
        2 * (units(a) + units(b)) < units(a) + units(a + 1),
        units(a - 1) + units(a) < 2 * (units(a) - units(b)),
        units(b) < units(a),
{
    lemma_units_at(ea, ma);
    lemma_units_at(ea, ma + 1);
    let f = pow2(ea);
    let h = pow2((ea - 1) as nat);
    let q = pow2((ea - 2) as nat);
    let g = pow2(eb);
    lemma_pow2_unfold(ea);
    lemma_pow2_unfold((ea - 1) as nat);
    lemma2_to64_rest();
    lemma_pow2_adds(53, eb);
    lemma_pow2_pos(eb);
    if eb + 53 < ea - 2 {
        lemma_pow2_strictly_increases(eb + 53, (ea - 2) as nat);
    }
    assert(mb * g < (2 * BINADE) * g) by (nonlinear_arith)
        requires
            mb < 2 * BINADE,
            0 < g,
    ;
    assert(units(b) < q);
    assert((ma + 1) * f == ma * f + f) by (nonlinear_arith);
    if ma == BINADE {
        lemma_units_at((ea - 1) as nat, 2 * BINADE - 1);
        assert((2 * BINADE - 1) * h == ma * f - h) by (nonlinear_arith)
            requires
                f == 2 * h,
                ma == BINADE,
        ;
    } else {
        lemma_units_at(ea, ma - 1);
        assert((ma - 1) * f == ma * f - f) by (nonlinear_arith);
    }
    assert(f <= ma * f) by (nonlinear_arith)
        requires
            1 <= ma,
            0 <= f,
    ;
}

/// The sum of two doubles.
pub open spec fn sum(a: u64, b: u64) -> u64 {
    round(units(a as int) + units(b as int), 1)
}

/// Adds two finite doubles.
pub fn plus(a: u64, b: u64) -> (c: u64)
    requires
        a < INFINITY,
        b < INFINITY,
    ensures
        c == sum(a, b),
{
    let (a, b): (u64, u64) = if a < b {
        (b, a)
    } else {
        (a, b)
    };
    let ghost n = units(a as int) + units(b as int);
    if a == 0 {
        proof {
            lemma_round_exact(1, 0);
        }
        return 0;
    }
    let (ma, ea) = split(a);
    let (mb, eb) = split(b);
    assert(eb <= ea);
    if ea - eb > 70 {
        proof {
            lemma_far_below(a as int, b as int, ma as int, ea as nat, mb as int, eb as nat);
            lemma_nearest_below(n, 1, a as int);
            lemma_round_is(n, 1, a as int);
        }
        return a;
    }
    let p: u128 = power(ea - eb);
    proof {
        lemma_aligned(ma as int, ea as nat, eb as nat, p as int);
    }
    let m: u128 = ma as u128 * p + mb as u128;
    proof {
        let g = pow2(scale());
        let y = pow2(eb as nat);
        lemma_pow2_adds(eb as nat, scale());
        assert(n * g == m * ((y * g) * 1)) by (nonlinear_arith)
            requires
                n == (ma * p) * y + mb * y,
                m == ma * p + mb,
        ;
        assert(0 < ma * p) by (nonlinear_arith)
            requires
                0 < ma,
                0 < p,
        ;
    }
    round_scaled(m, false, eb as i64, Ghost(n), Ghost(1))
}

/// Aligning a significand with a smaller exponent keeps its value and fits.
proof fn lemma_aligned(ma: int, ea: nat, eb: nat, p: int)
    requires
        0 <= ma < 2 * BINADE,
        eb <= ea <= eb + 70,
        p == pow2((ea - eb) as nat),
    ensures
        ma * pow2(ea) == (ma * p) * pow2(eb),
        0 <= ma * p < 0x4000_0000_0000_0000_0000_0000_0000_0000,
        0 < p,
{
    lemma_pow2_adds((ea - eb) as nat, eb);
    let x = pow2(eb);
    assert(ma * (p * x) == (ma * p) * x) by (nonlinear_arith);
    lemma_pow2_pos((ea - eb) as nat);
    lemma_pow2_adds(64, 6);
    lemma2_to64();
    if ea - eb < 70 {
        lemma_pow2_strictly_increases((ea - eb) as nat, 70);
    }
    assert(0 <= ma * p < 0x4000_0000_0000_0000_0000_0000_0000_0000) by (nonlinear_arith)
        requires
            0 <= ma < 0x40_0000_0000_0000,
            0 < p <= 0x40_0000_0000_0000_0000,
    ;
}

/// The difference of two doubles, the smaller taken from the larger.
pub open spec fn difference(a: u64, b: u64) -> u64 {
    round((units(a as int) - units(b as int)) as nat, 1)
}

/// Subtracts from a finite double one that is no larger.
pub fn minus(a: u64, b: u64) -> (c: u64)
    requires
        b <= a < INFINITY,
    ensures
        c == difference(a, b),
{
    proof {
        if b < a {
            lemma_units_increase(b as int, a as int);
        }
    }
    let ghost n = (units(a as int) - units(b as int)) as nat;
    if a == b {
        proof {
            lemma_round_exact(1, 0);
        }
        return 0;
    }
    let (ma, ea) = split(a);
    let (mb, eb) = split(b);
    assert(eb <= ea);
    if ea - eb > 70 {
        proof {
            lemma_far_below(a as int, b as int, ma as int, ea as nat, mb as int, eb as nat);
            lemma_nearest_above(n, 1, a as int);
            lemma_round_is(n, 1, a as int);
        }
        return a;
    }
    let p: u128 = power(ea - eb);
    proof {
        lemma_aligned(ma as int, ea as nat, eb as nat, p as int);
        let y = pow2(eb as nat);
        assert(mb < ma * p) by (nonlinear_arith)
            requires
                mb * y < (ma * p) * y,
        ;
    }
    let m: u128 = ma as u128 * p - mb as u128;
    proof {
        let g = pow2(scale());
        let y = pow2(eb as nat);
        lemma_pow2_adds(eb as nat, scale());
        assert(n * g == m * ((y * g) * 1)) by (nonlinear_arith)
            requires
                n == (ma * p) * y - mb * y,
                m == ma * p - mb,
        ;
    }
    round_scaled(m, false, eb as i64, Ghost(n), Ghost(1))
}

/// A double cut down to an integer, as the cast does: what is too large
/// becomes the largest integer.
pub open spec fn truncated(a: u64) -> u64 {
    let whole = units(a as int) / one();
    if whole < u64::MAX {
        whole as u64
    } else {
        u64::MAX
    }
}

/// Converts a finite double to an integer.
pub fn to_u64(a: u64) -> (x: u64)
    requires
        a < INFINITY,
    ensures
        x == truncated(a),
{
    let (m, e) = split(a);
    proof {
        lemma_pow2_pos(1074);
        lemma2_to64();
        lemma2_to64_rest();
    }
    if e >= 1074 {
        let t: u32 = e - 1074;
        proof {
            lemma_pow2_adds(t as nat, 1074);
            let p = pow2(t as nat);
            assert(m * (p * one()) == (m * p) * one()) by (nonlinear_arith);
            lemma_div_by_multiple(m * p, one() as int);
            if t < 11 {
                lemma_pow2_strictly_increases(t as nat, 11);
            }
            if t > 12 {
                lemma_pow2_strictly_increases(12, t as nat);
            }
            if t <= 11 {
                assert(m * p < 0x1_0000_0000_0000_0000) by (nonlinear_arith)
                    requires
                        0 <= m < 0x20_0000_0000_0000,
                        0 < p <= 0x800,
                ;
            } else {
                assert(m * p >= 0x1_0000_0000_0000_0000) by (nonlinear_arith)
                    requires
                        m >= 0x10_0000_0000_0000,
                        p >= 0x1000,
                ;
            }
        }
        if t <= 11 {
            (m as u128 * power(t)) as u64
        } else {
            u64::MAX
        }
    } else {
        let t: u32 = 1074 - e;
        proof {
            lemma_pow2_adds(e as nat, t as nat);
            let p = pow2(t as nat);
            let x = pow2(e as nat);
            lemma_pow2_pos(t as nat);
            lemma_pow2_pos(e as nat);
            lemma_fundamental_div_mod(m as int, p as int);
            let q = m as int / p as int;
            let r = m as int % p as int;
            assert(m * x == q * (x * p) + r * x) by (nonlinear_arith)
                requires
                    m == p * q + r,
            ;
            assert(0 <= r * x < x * p) by (nonlinear_arith)
                requires
                    0 <= r < p,
                    0 < x,
            ;
            lemma_fundamental_div_mod_converse(m * x, one() as int, q, r * x);
            if t > 53 {
                lemma_pow2_strictly_increases(53, t as nat);
                assert(q == 0) by (nonlinear_arith)
                    requires
                        m == p * q + r,
                        0 <= m < p,
                        0 <= r < p,
                ;
            } else {
                assert(0 <= q <= m) by (nonlinear_arith)
                    requires
                        m == p * q + r,
                        0 <= r < p,
                        0 <= m,
                ;
            }
        }
        if t > 53 {
            0
        } else {
            (m as u128 / power(t)) as u64
        }
    }
}

/// `n / d` to the nearest integer, the even one of two that are equally near.
pub open spec fn half_even(n: nat, d: nat) -> nat {
    let q = n / d;
    let r = n % d;
    if 2 * r < d || (2 * r == d && q % 2 == 0) {
        q
    } else {
        q + 1
    }
}

/// Enlarging both parts of a fraction keeps what it rounds to.
proof fn lemma_half_even_scaled(n: nat, d: nat, x: nat)
    requires
        0 < d,
        0 < x,
    ensures
        half_even(n * x, d * x) == half_even(n, d),
        0 < d * x,
{
    let q = n as int / d as int;
    let r = n as int % d as int;
    lemma_fundamental_div_mod(n as int, d as int);
    assert(n * x == q * (d * x) + r * x) by (nonlinear_arith)
        requires
            n == d * q + r,
    ;
    assert(0 <= r * x < d * x) by (nonlinear_arith)
        requires
            0 <= r < d,
            0 < x,
    ;
    lemma_fundamental_div_mod_converse((n * x) as int, (d * x) as int, q, r * x);
    assert(2 * (r * x) == (2 * r) * x) by (nonlinear_arith);
    if 2 * r < d {
        assert((2 * r) * x < d * x) by (nonlinear_arith)
            requires
                2 * r < d,
                0 < x,
        ;
    } else if 2 * r > d {
        assert((2 * r) * x > d * x) by (nonlinear_arith)
            requires
                2 * r > d,
                0 < x,
        ;
    }
}

/// A number of seconds in nanoseconds, to the nearest one.
pub open spec fn nanoseconds(b: u64) -> nat {
    half_even(units(b as int) * 1_000_000_000, one())
}

/// Converts seconds below two to the power 64 to nanoseconds.
pub fn to_nanos(b: u64) -> (nanos: u128)
    requires
        b < 0x43f0_0000_0000_0000,
    ensures
        nanos == nanoseconds(b),
        nanos < 1_000_000_000 * 0x1_0000_0000_0000_0000,
{
    let (m, e) = split(b);
    let top: u128 = m as u128 * 1_000_000_000;
    let ghost x = pow2(e as nat);
    proof {
        lemma_pow2_pos(1074);
        lemma_pow2_pos(e as nat);
        lemma2_to64();
        lemma2_to64_rest();
        assert((m * x) * 1_000_000_000 == (m * 1_000_000_000) * x) by (nonlinear_arith);
    }
    if e >= 1074 {
        let t: u32 = e - 1074;
        let p: u128 = power(t);
        proof {
            if t < 11 {
                lemma_pow2_strictly_increases(t as nat, 11);
            }
            assert(top * p < 1_000_000_000 * 0x1_0000_0000_0000_0000) by (nonlinear_arith)
                requires
                    0 <= top < 1_000_000_000 * 0x20_0000_0000_0000,
                    0 < p <= 0x800,
            ;
            lemma_pow2_adds(t as nat, 1074);
            assert(top * (p * one()) == (top * p) * one()) by (nonlinear_arith);
            assert(0 <= top * p) by (nonlinear_arith)
                requires
                    0 <= top,
                    0 <= p,
            ;
            assert(1 * one() == one());
            lemma_half_even_scaled((top * p) as nat, 1, one());
        }
        top * p
    } else {
        let t: u32 = 1074 - e;
        proof {
            lemma_pow2_adds(t as nat, e as nat);
            lemma_pow2_pos(t as nat);
            lemma_half_even_scaled(top as nat, pow2(t as nat), x);
        }
        if t > 126 {
            proof {
                lemma_pow2_strictly_increases(126, t as nat);
                lemma_pow2_adds(63, 63);
                assert(0x8000_0000_0000_0000int * 0x8000_0000_0000_0000int
                    == 0x4000_0000_0000_0000_0000_0000_0000_0000int);
                lemma_basic_div(top as int, pow2(t as nat) as int);
                lemma_small_mod(top as nat, pow2(t as nat));
            }
            return 0;
        }
        let p: u128 = power(t);
        let q: u128 = top / p;
        let r: u128 = top % p;
        proof {
            lemma_fundamental_div_mod(top as int, p as int);
            assert(q <= top) by (nonlinear_arith)
                requires
                    top == p * q + r,
                    0 <= r,
                    1 <= p,
                    0 <= q,
            ;
            lemma_pow2_at_127(t as nat);
        }
        if r < p - r || (r == p - r && q % 2 == 0) {
            q
        } else {
            q + 1
        }
    }
}

/// The pattern of two to the power `j`.
pub open spec fn two_to(j: int) -> int {
    (1023 + j) * BINADE
}

pub proof fn lemma_two_to(j: int)
    requires
        -1022 <= j <= 1023,
    ensures
        units(two_to(j)) == pow2((1074 + j) as nat),
        0 < two_to(j) < INFINITY,
{
    lemma_units_at((1022 + j) as nat, BINADE as int);
    lemma_pow2_adds(52, (1022 + j) as nat);
    lemma2_to64_rest();
}

/// Seconds below two to the power 64 are that many nanoseconds at most.
pub proof fn lemma_nanoseconds_bound(b: u64)
    requires
        b < two_to(64),
    ensures
        nanoseconds(b) < 1_000_000_000 * 0x1_0000_0000_0000_0000,
{
    let k = 2 * BINADE - 1;
    lemma_units_at(1085, k);
    lemma_units_ordered(b as int, two_to(64) - 1);
    lemma2_to64();
    lemma_pow2_adds(11, 1074);
    lemma_pow2_pos(1074);
    let one = one() as int;
    let n = units(b as int) * 1_000_000_000;
    assert(n <= (k * 2048 * 1_000_000_000) * one) by (nonlinear_arith)
        requires
            units(b as int) <= k * (2048 * one),
            n == units(b as int) * 1_000_000_000,
    ;
    lemma_fundamental_div_mod(n as int, one);
    let q = n as int / one;
    assert(0 <= n as int % one) by (nonlinear_arith)
        requires
            one > 0,
    ;
    assert(q <= k * 2048 * 1_000_000_000) by (nonlinear_arith)
        requires
            one * q <= n,
            n <= (k * 2048 * 1_000_000_000) * one,
            one > 0,
    ;
}

/// The order of two patterns, where one is not above the other.
pub proof fn lemma_units_ordered(a: int, b: int)
    requires
        0 <= a <= b,
    ensures
        units(a) <= units(b),
{
    if a < b {
        lemma_units_increase(a, b);
    }
}

/// What is at most a double rounds to at most that double.
pub proof fn lemma_round_at_most(n: nat, d: nat, b: int)
    requires
        0 < d,
        0 <= b < INFINITY,
        n <= d * units(b),
    ensures
        round(n, d) <= b,
{
    let x = d * units(b);
    assert(n * d <= x * d) by (nonlinear_arith)
        requires
            n <= x,
    ;
    lemma_round_ordered(n, d, x, d);
    lemma_round_exact(d, b);
}

/// What is at least a double rounds to at least that double.
pub proof fn lemma_round_at_least(n: nat, d: nat, b: int)
    requires
        0 < d,
        0 <= b < INFINITY,
        d * units(b) <= n,
    ensures
        b <= round(n, d),
{
    let x = d * units(b);
    assert(x * d <= n * d) by (nonlinear_arith)
        requires
            x <= n,
    ;
    lemma_round_ordered(x, d, n, d);
    lemma_round_exact(d, b);
}

/// Powers of two bound the double of an integer.
pub proof fn lemma_of_int_bounds(x: nat, i: nat)
    requires
        i <= 1000,
    ensures
        x <= pow2(i) ==> of_int(x) <= two_to(i as int),
        pow2(i) <= x ==> two_to(i as int) <= of_int(x),
{
    lemma_two_to(i as int);
    lemma_pow2_adds(i, 1074);
    let u = units(two_to(i as int));
    let p = pow2(i);
    let q = pow2(1074);
    assert(u == p * q);
    assert(1 * u == u);
    if x <= p {
        assert(x * q <= p * q) by (nonlinear_arith)
            requires
                x <= p,
        ;
        lemma_round_at_most(x * one(), 1, two_to(i as int));
    }
    if p <= x {
        assert(p * q <= x * q) by (nonlinear_arith)
            requires
                p <= x,
        ;
        lemma_round_at_least(x * one(), 1, two_to(i as int));
    }
}

/// Powers of two bound a quotient.
pub proof fn lemma_quotient_bounds(a: u64, b: u64, i: int, j: int)
    requires
        a < INFINITY,
        0 < b < INFINITY,
        -500 <= i <= 500,
        -500 <= j <= 500,
    ensures
        a <= two_to(i) && two_to(j) <= b ==> quotient(a, b) <= two_to(i - j),
        two_to(i) <= a && b <= two_to(j) ==> two_to(i - j) <= quotient(a, b),
{
    lemma_units_increase(0, b as int);
    lemma_two_to(i);
    lemma_two_to(j);
    lemma_two_to(i - j);
    let n = units(a as int) * one();
    let d = units(b as int);
    let ua = units(a as int);
    let x = pow2((1074 + i) as nat);
    let y = pow2((1074 + j) as nat);
    let z = pow2((1074 + i - j) as nat);
    lemma_pow2_adds((1074 + j) as nat, (1074 + i - j) as nat);
    lemma_pow2_adds((1074 + i) as nat, 1074);
    assert(y * z == x * one());
    if a <= two_to(i) && two_to(j) <= b {
        lemma_units_ordered(a as int, two_to(i));
        lemma_units_ordered(two_to(j), b as int);
        assert(ua * one() <= d * z) by (nonlinear_arith)
            requires
                ua <= x,
                y <= d,
                y * z == x * one(),
        ;
        lemma_round_at_most(n, d, two_to(i - j));
    }
    if two_to(i) <= a && b <= two_to(j) {
        lemma_units_ordered(two_to(i), a as int);
        lemma_units_ordered(b as int, two_to(j));
        assert(d * z <= ua * one()) by (nonlinear_arith)
            requires
                x <= ua,
                d <= y,
                y * z == x * one(),
        ;
        lemma_round_at_least(n, d, two_to(i - j));
    }
}

/// Powers of two bound a product from above.
pub proof fn lemma_product_bound(a: u64, b: u64, i: int, j: int)
    requires
        -500 <= i <= 500,
        -500 <= j <= 500,
        a <= two_to(i),
        b <= two_to(j),
    ensures
        product(a, b) <= two_to(i + j),
{
    lemma_two_to(i);
    lemma_two_to(j);
    lemma_two_to(i + j);
    lemma_units_ordered(a as int, two_to(i));
    lemma_units_ordered(b as int, two_to(j));
    lemma_pow2_adds((1074 + i) as nat, (1074 + j) as nat);
    lemma_pow2_adds(1074, (1074 + i + j) as nat);
    lemma_pow2_pos(1074);
    let ua = units(a as int);
    let ub = units(b as int);
    let x = pow2((1074 + i) as nat);
    let y = pow2((1074 + j) as nat);
    assert(ua * ub <= x * y) by (nonlinear_arith)
        requires
            ua <= x,
            ub <= y,
    ;
    lemma_round_at_most(ua * ub, one(), two_to(i + j));
}

/// The next double is not far away.
proof fn lemma_gap(b: int)
    requires
        0 <= b,
    ensures
        (units(b + 1) - units(b)) * BINADE <= units(b) + BINADE,
{
    let u: nat = if b < 2 * BINADE {
        0
    } else {
        (b / (BINADE as int) - 1) as nat
    };
    let k = b - u * BINADE;
    lemma_units_at(u, k);
    lemma_units_at(u, k + 1);
    lemma_pow2_pos(u);
    let p = pow2(u);
    assert((k + 1) * p == k * p + p) by (nonlinear_arith);
    if u == 0 {
        lemma2_to64();
    } else {
        assert(BINADE * p <= k * p) by (nonlinear_arith)
            requires
                BINADE <= k,
        ;
    }
}

/// The next double is not close either.
pub proof fn lemma_gap_is_wide(b: int)
    requires
        0 <= b,
    ensures
        units(b + 1) <= 2 * BINADE * (units(b + 1) - units(b)),
{
    let u: nat = if b < 2 * BINADE {
        0
    } else {
        (b / (BINADE as int) - 1) as nat
    };
    let k = b - u * BINADE;
    lemma_units_at(u, k);
    lemma_units_at(u, k + 1);
    lemma_pow2_pos(u);
    let p = pow2(u);
    assert((k + 1) * p == k * p + p) by (nonlinear_arith);
    assert((k + 1) * p <= 2 * BINADE * p) by (nonlinear_arith)
        requires
            k + 1 <= 2 * BINADE,
            p > 0,
    ;
}

/// Rounding errs by no more than half the distance to the next double.
pub proof fn lemma_round_error(n: nat, d: nat)
    requires
        0 < d,
        round(n, d) < INFINITY,
    ensures
        ({
            let u = units(round(n, d) as int);
            &&& 2 * BINADE * (u * d) <= 2 * BINADE * n + u * d + BINADE * d
            &&& 2 * BINADE * n <= 2 * BINADE * (u * d) + u * d + BINADE * d
        }),
{
    lemma_nearest_exists(n, d);
    let b = choose|b: int| nearest(n, d, b);
    let u = units(b) as int;
    lemma_gap(b);
    let next = units(b + 1) as int;
    let g = next - u;
    assert(d * (u + next) == 2 * (u * d) + g * d) by (nonlinear_arith)
        requires
            g == next - u,
    ;
    assert(BINADE * (g * d) <= u * d + BINADE * d) by (nonlinear_arith)
        requires
            g * BINADE <= u + BINADE,
            0 < d,
    ;
    if b > 0 {
        lemma_gap(b - 1);
        lemma_units_step(b - 1);
        let prior = units(b - 1) as int;
        let h = u - prior;
        assert(d * (prior + u) == 2 * (u * d) - h * d) by (nonlinear_arith)
            requires
                h == u - prior,
        ;
        assert(BINADE * (h * d) <= u * d + BINADE * d) by (nonlinear_arith)
            requires
                h * BINADE <= u + BINADE,
                0 < d,
        ;
    } else {
        assert(u * d == 0) by (nonlinear_arith)
            requires
                u == 0,
        ;
        assert(BINADE * d >= 0) by (nonlinear_arith);
    }
}

/// Where the exact value is not tiny, rounding errs by a small part of it.
pub proof fn lemma_round_relative(n: nat, d: nat)
    requires
        0 < d,
        round(n, d) < INFINITY,
        BINADE * d <= n,
    ensures
        ({
            let u = units(round(n, d) as int);
            &&& (2 * BINADE - 2) * (u * d) <= 2 * BINADE * n
            &&& 2 * BINADE * n <= (2 * BINADE + 3) * (u * d)
        }),
{
    lemma_round_error(n, d);
    let u = units(round(n, d) as int);
    let x = u * d;
    assert((2 * BINADE - 1) * x <= (2 * BINADE + 1) * n);
    assert((2 * BINADE - 1) * n <= (2 * BINADE + 1) * x);
}

/// A sum is no smaller than either part, and at most twice a common bound.
pub proof fn lemma_sum_bounds(a: u64, b: u64, i: int)
    requires
        a < INFINITY,
        b < INFINITY,
        -500 <= i <= 500,
    ensures
        a <= sum(a, b),
        b <= sum(a, b),
        a <= two_to(i) && b <= two_to(i) ==> sum(a, b) <= two_to(i + 1),
{
    let n = units(a as int) + units(b as int);
    assert(1 * units(a as int) == units(a as int));
    assert(1 * units(b as int) == units(b as int));
    lemma_round_at_least(n, 1, a as int);
    lemma_round_at_least(n, 1, b as int);
    if a <= two_to(i) && b <= two_to(i) {
        lemma_two_to(i);
        lemma_two_to(i + 1);
        lemma_units_ordered(a as int, two_to(i));
        lemma_units_ordered(b as int, two_to(i));
        lemma_pow2_unfold((1074 + i + 1) as nat);
        assert(1 * units(two_to(i + 1)) == units(two_to(i + 1)));
        lemma_round_at_most(n, 1, two_to(i + 1));
    }
}

/// A difference is no larger than what it was taken from.
pub proof fn lemma_difference_bound(a: u64, b: u64)
    requires
        b <= a < INFINITY,
    ensures
        difference(a, b) <= a,
{
    lemma_units_ordered(b as int, a as int);
    assert(1 * units(a as int) == units(a as int));
    lemma_round_at_most((units(a as int) - units(b as int)) as nat, 1, a as int);
}

/// Nothing stays nothing, and adding it changes nothing.
pub proof fn lemma_zero(b: u64)
    requires
        0 < b < INFINITY,
    ensures
        of_int(0) == 0,
        quotient(0, b) == 0,
        product(0, b) == 0,
        sum(b, 0) == b,
        sum(0, 0) == 0,
{
    lemma_pow2_pos(1074);
    lemma_units_increase(0, b as int);
    assert(units(0) == 0);
    assert(0 * one() == 0);
    assert(0 * units(b as int) == 0);
    lemma_round_exact(1, 0);
    assert(units(b as int) * 0 == 0);
    lemma_round_exact(units(b as int), 0);
    assert(one() * 0 == 0);
    lemma_round_exact(one(), 0);
    assert(1 * units(b as int) == units(b as int));
    lemma_round_exact(1, b as int);
}

/// A larger integer has no smaller double.
pub proof fn lemma_of_int_ordered(x: nat, y: nat)
    requires
        x <= y,
    ensures
        of_int(x) <= of_int(y),
{
    assert(x * one() <= y * one()) by (nonlinear_arith)
        requires
            x <= y,
    ;
    lemma_round_ordered(x * one(), 1, y * one(), 1);
}

/// A larger dividend has no smaller quotient.
pub proof fn lemma_quotient_ordered(a: u64, b: u64, c: u64)
    requires
        a <= b,
        0 < c,
    ensures
        quotient(a, c) <= quotient(b, c),
{
    lemma_units_increase(0, c as int);
    lemma_units_ordered(a as int, b as int);
    let x = units(a as int);
    let y = units(b as int);
    let d = units(c as int);
    assert((x * one()) * d <= (y * one()) * d) by (nonlinear_arith)
        requires
            x <= y,
    ;
    lemma_round_ordered(x * one(), d, y * one(), d);
}

/// A larger factor has no smaller product.
pub proof fn lemma_product_ordered(a: u64, b: u64, c: u64)
    requires
        a <= b,
    ensures
        product(a, c) <= product(b, c),
{
    lemma_units_ordered(a as int, b as int);
    lemma_pow2_pos(1074);
    let x = units(a as int);
    let y = units(b as int);
    let z = units(c as int);
    assert((x * z) * one() <= (y * z) * one()) by (nonlinear_arith)
        requires
            x <= y,
    ;
    lemma_round_ordered(x * z, one(), y * z, one());
}

/// A larger part has no smaller sum.
pub proof fn lemma_sum_ordered(a: u64, b: u64, c: u64)
    requires
        a <= b,
    ensures
        sum(c, a) <= sum(c, b),
{
    lemma_units_ordered(a as int, b as int);
    let x = units(c as int) + units(a as int);
    let y = units(c as int) + units(b as int);
    assert(x * 1 <= y * 1);
    lemma_round_ordered(x, 1, y, 1);
}

/// More taken from less leaves no more.
pub proof fn lemma_difference_ordered(a: u64, x: u64, b: u64, y: u64)
    requires
        a <= b,
        y <= x <= a,
    ensures
        difference(a, x) <= difference(b, y),
{
    lemma_units_ordered(a as int, b as int);
    lemma_units_ordered(y as int, x as int);
    lemma_units_ordered(x as int, a as int);
    lemma_units_ordered(y as int, b as int);
    let n = (units(a as int) - units(x as int)) as nat;
    let m = (units(b as int) - units(y as int)) as nat;
    assert(n * 1 <= m * 1);
    lemma_round_ordered(n, 1, m, 1);
}

/// Two patterns of the same value are the same.
pub proof fn lemma_units_injective(a: int, b: int)
    requires
        0 <= a,
        0 <= b,
        units(a) == units(b),
    ensures
        a == b,
{
    if a < b {
        lemma_units_increase(a, b);
    } else if b < a {
        lemma_units_increase(b, a);
    }
}

/// Every number with a significand of 53 bits is a double.
proof fn lemma_is_double(k: nat, e: nat) -> (b: int)
    requires
        k < 2 * BINADE,
        e <= 2045,
    ensures
        0 <= b < INFINITY,
        units(b) == k * pow2(e),
    decreases e,
{
    if k >= BINADE {
        let b = (e + 1) * BINADE + (k - BINADE);
        lemma_units_at(e, k as int);
        b
    } else if e == 0 {
        lemma_pow2_unfold(1);
        assert(pow2(0) == 1) by {
            lemma2_to64();
        }
        assert(k * 1 == k);
        k as int
    } else {
        lemma_pow2_unfold(e);
        let p = pow2((e - 1) as nat);
        assert((2 * k) * p == k * (2 * p)) by (nonlinear_arith);
        lemma_is_double(2 * k, (e - 1) as nat)
    }
}

/// What is a double stays as it is when it is rounded.
proof fn lemma_round_keeps(k: nat, e: nat)
    requires
        k < 2 * BINADE,
        e <= 2045,
    ensures
        units(round(k * pow2(e), 1) as int) == k * pow2(e),
        round(k * pow2(e), 1) < INFINITY,
{
    let b = lemma_is_double(k, e);
    assert(1 * units(b) == units(b));
    lemma_round_exact(1, b);
}

/// The integers up to two to the power 53 are doubles.
pub proof fn lemma_of_int_exact(x: nat)
    requires
        x <= 2 * BINADE,
    ensures
        units(of_int(x) as int) == x * one(),
        of_int(x) < INFINITY,
{
    if x < 2 * BINADE {
        lemma_round_keeps(x, 1074);
    } else {
        lemma_pow2_unfold(1075);
        let p = pow2(1074);
        assert(x * p == (BINADE as nat) * (2 * p)) by (nonlinear_arith)
            requires
                x == 2 * BINADE,
        ;
        lemma_round_keeps(BINADE as nat, 1075);
    }
}

/// Taking an integer from a double that is at most two to the power 53 is
/// exact, and adding it again gives the double back.
pub proof fn lemma_whole_difference(a: u64, x: nat)
    requires
        a <= two_to(53),
        x <= 2 * BINADE,
        of_int(x) <= a,
    ensures
        units(difference(a, of_int(x)) as int) == units(a as int) - x * one(),
        difference(a, of_int(x)) < INFINITY,
        sum(difference(a, of_int(x)), of_int(x)) == a,
{
    lemma_of_int_exact(x);
    lemma_units_ordered(of_int(x) as int, a as int);
    let u = units(a as int);
    let n = (u - x * one()) as nat;
    if a == two_to(53) {
        lemma_two_to(53);
        let whole = 2 * BINADE as nat;
        lemma_pow2_adds(53, 1074);
        lemma2_to64_rest();
        assert(u == whole * one());
        assert(whole * one() - x * one() == (whole - x) * one()) by (nonlinear_arith);
        lemma_of_int_exact((whole - x) as nat);
    } else {
        let (k, e): (nat, nat) = if a < BINADE {
            (a as nat, 0)
        } else {
            ((BINADE + a % BINADE) as nat, (a / BINADE - 1) as nat)
        };
        assert(u == k * pow2(e)) by {
            lemma2_to64();
            assert(k * 1 == k);
        }
        assert(e <= 1074);
        let p = pow2(e);
        let q = pow2((1074 - e) as nat);
        lemma_pow2_adds(e, (1074 - e) as nat);
        lemma_pow2_pos(e);
        let rest = k - x * q;
        assert(k * p - x * (p * q) == rest * p) by (nonlinear_arith)
            requires
                rest == k - x * q,
        ;
        assert(n == rest * p);
        assert(rest >= 0) by (nonlinear_arith)
            requires
                n == rest * p,
                n >= 0,
                p > 0,
        ;
        assert(0 <= x * q) by (nonlinear_arith);
        lemma_round_keeps(rest as nat, e);
    }
    assert(1 * u == u);
    lemma_round_exact(1, a as int);
}

/// Rounding gives the double nearest to the exact value: no other one is nearer,
/// and where another one is as near, the pattern of the one that is given is
/// even. The comparison is with the midpoint between the two.
pub proof fn lemma_round_is_nearest(n: nat, d: nat, c: int)
    requires
        0 < d,
        0 <= c,
        round(n, d) < INFINITY,
    ensures
        ({
            let b = round(n, d);
            let mid = d * (units(b as int) + units(c));
            &&& c < b ==> mid < 2 * n || (mid == 2 * n && b % 2 == 0)
            &&& c > b ==> 2 * n < mid || (mid == 2 * n && b % 2 == 0)
        }),
{
    lemma_nearest_exists(n, d);
    let b = choose|b: int| nearest(n, d, b);
    let u = units(b);
    let x = units(c);
    if c < b {
        let y = units(b - 1);
        if c < b - 1 {
            lemma_units_increase(c, b - 1);
            assert(d * (u + x) < d * (y + u)) by (nonlinear_arith)
                requires
                    x < y,
                    0 < d,
            ;
        } else {
            assert(u + x == y + u);
        }
    } else if c > b {
        let y = units(b + 1);
        if c > b + 1 {
            lemma_units_increase(b + 1, c);
            assert(d * (u + y) < d * (u + x)) by (nonlinear_arith)
                requires
                    y < x,
                    0 < d,
            ;
        }
    }
}

/// Rounding to an integer gives the nearest one, and of two that are equally near
/// the even one.
pub proof fn lemma_half_even_is_nearest(n: nat, d: nat)
    requires
        0 < d,
    ensures
        ({
            let q = half_even(n, d) as int;
            &&& -(d as int) <= 2 * (q * d - n) <= d
            &&& 2 * (q * d - n) == d || 2 * (q * d - n) == -(d as int) ==> q % 2 == 0
        }),
{
    lemma_fundamental_div_mod(n as int, d as int);
    let q = n as int / d as int;
    let r = n as int % d as int;
    assert(q * d == n - r) by (nonlinear_arith)
        requires
            n == d * q + r,
    ;
    assert((q + 1) * d == q * d + d) by (nonlinear_arith);
}

/// Cutting a double down to an integer gives the largest one that is no more
/// than it, as far as it can be written.
pub proof fn lemma_truncated_is_below(a: u64)
    ensures
        truncated(a) * one() <= units(a as int),
        truncated(a) < u64::MAX ==> units(a as int) < (truncated(a) + 1) * one(),
{
    lemma_pow2_pos(1074);
    let u = units(a as int) as int;
    let one = one() as int;
    lemma_fundamental_div_mod(u, one);
    let q = u / one;
    assert(q * one <= u < (q + 1) * one) by (nonlinear_arith)
        requires
            u == one * q + u % one,
            0 <= u % one < one,
    ;
    let t = truncated(a) as int;
    if t < q {
        assert(t * one <= q * one) by (nonlinear_arith)
            requires
                t <= q,
                one > 0,
        ;
    }
}

/// On whole numbers up to two to the power 53 the operations are exact.
pub proof fn lemma_whole_numbers_are_exact(x: nat, y: nat)
    requires
        x <= 0x20_0000_0000_0000,
        y <= 0x20_0000_0000_0000,
    ensures
        x + y <= 0x20_0000_0000_0000 ==> sum(of_int(x), of_int(y)) == of_int(x + y),
        y <= x ==> difference(of_int(x), of_int(y)) == of_int((x - y) as nat),
        x * y <= 0x20_0000_0000_0000 ==> product(of_int(x), of_int(y)) == of_int(x * y),
        x * y <= 0x20_0000_0000_0000 && y > 0 ==> quotient(of_int(x * y), of_int(y)) == of_int(x),
{
    lemma_pow2_pos(1074);
    lemma_of_int_exact(x);
    lemma_of_int_exact(y);
    let one = one();
    assert(x * one + y * one == (x + y) * one) by (nonlinear_arith);
    if y <= x {
        assert(x * one - y * one == (x - y) * one) by (nonlinear_arith);
    }
    if x * y <= 0x20_0000_0000_0000 {
        lemma_of_int_exact(x * y);
        assert((x * one) * (y * one) == one * ((x * y) * one)) by (nonlinear_arith);
        lemma_round_exact(one, of_int(x * y) as int);
        if y > 0 {
            let d = y * one;
            assert(d > 0) by (nonlinear_arith)
                requires
                    d == y * one,
                    y > 0,
                    one > 0,
            ;
            assert(((x * y) * one) * one == d * (x * one)) by (nonlinear_arith)
                requires
                    d == y * one,
            ;
            lemma_round_exact(d, of_int(x) as int);
        }
    }
}

/// No pattern `c` is nearer to `n / d` units than `b`, and one that is as near
/// leaves `b` even.
pub open spec fn beats(n: int, d: int, b: u64, c: int) -> bool {
    let mid = d * (units(b as int) + units(c));
    &&& c < b ==> mid < 2 * n || (mid == 2 * n && b % 2 == 0)
    &&& c > b ==> 2 * n < mid || (mid == 2 * n && b % 2 == 0)
}

/// Every operation gives the double nearest to the exact result, as long as that
/// is finite: the sum of the values, their difference, their product and their
/// quotient, and the value of an integer.
pub proof fn lemma_operations_are_nearest(a: u64, b: u64, x: nat, c: int)
    requires
        0 <= c,
    ensures
        ({
            let v = units(a as int) as int;
            let w = units(b as int) as int;
            &&& sum(a, b) < INFINITY ==> beats(v + w, 1, sum(a, b), c)
            &&& w <= v && difference(a, b) < INFINITY ==> beats(v - w, 1, difference(a, b), c)
            &&& product(a, b) < INFINITY ==> beats(v * w, one() as int, product(a, b), c)
            &&& w > 0 && quotient(a, b) < INFINITY ==> beats(v * one(), w, quotient(a, b), c)
            &&& of_int(x) < INFINITY ==> beats((x * one()) as int, 1, of_int(x), c)
        }),
{
    lemma_pow2_pos(1074);
    let v = units(a as int);
    let w = units(b as int);
    if sum(a, b) < INFINITY {
        lemma_round_is_nearest(v + w, 1, c);
    }
    if w <= v && difference(a, b) < INFINITY {
        lemma_round_is_nearest((v - w) as nat, 1, c);
    }
    if product(a, b) < INFINITY {
        lemma_round_is_nearest(v * w, one(), c);
    }
    if w > 0 && quotient(a, b) < INFINITY {
        lemma_round_is_nearest(v * one(), w, c);
    }
    if of_int(x) < INFINITY {
        lemma_round_is_nearest(x * one(), 1, c);
    }
}

/// A number of seconds is turned into the nearest number of nanoseconds, and of
/// two that are equally near into the even one.
pub proof fn lemma_nanoseconds_are_nearest(b: u64)
    ensures
        ({
            let off = nanoseconds(b) * one() - units(b as int) * 1_000_000_000;
            &&& -(one() as int) <= 2 * off <= one()
            &&& 2 * off == one() || 2 * off == -(one() as int) ==> nanoseconds(b) % 2 == 0
        }),
{
    lemma_pow2_pos(1074);
    lemma_half_even_is_nearest(units(b as int) * 1_000_000_000, one());
}

} // verus!
