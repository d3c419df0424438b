//! Laws that hold where rounding stays within a margin.
//!
//! Tokens, rates and waits are doubles, so each step errs by a small part of
//! its result. These laws bound the errors and say for which policies they
//! cannot matter.
use crate::bucket;
use crate::bucket::StoredBucket;
use crate::charge;
use crate::charge::Settlement;
use crate::double;
use crate::duration;
use crate::duration::Duration;
use crate::laws;
use crate::ratelimit;
use crate::ratelimit::{PendingCharge, Verdict};
use crate::refund;
use vstd::arithmetic::power2::*;
use vstd::prelude::*;

verus! {

/// One is many units.
proof fn lemma_one_is_large()
    ensures
        double::one() > 0x8000_0000_0000_0000,
        double::units(double::two_to(0)) == double::one(),
        double::units(double::of_int(1000) as int) == 1000 * double::one(),
{
    lemma2_to64();
    lemma2_to64_rest();
    lemma_pow2_strictly_increases(63, 1074);
    double::lemma_two_to(0);
    double::lemma_of_int_exact(1000);
}

/// What flows in over some milliseconds is close to the rate times the time.
proof fn lemma_inflow_is_close(ms: nat, rate: u64)
    requires
        1 <= ms <= u64::MAX,
        double::two_to(-65) <= rate <= double::two_to(94),
    ensures
        ({
            let v = double::units(bucket::inflow(ms, rate) as int) as int;
            let x = ms * double::units(rate as int);
            &&& bucket::inflow(ms, rate) < double::INFINITY
            &&& 0x20_0000_0000_0000 * x <= 1000 * (0x20_0000_0000_0000 + 10) * v
            &&& 1000 * (0x20_0000_0000_0000 - 7) * v <= 0x20_0000_0000_0000 * x
        }),
{
    lemma_one_is_large();
    bucket::lemma_thousand();
    bucket::lemma_elapsed_bound(ms);
    lemma2_to64();
    lemma2_to64_rest();
    let one = double::one() as int;
    let time = double::of_int(ms);
    let thousand = double::of_int(1000);
    let secs = double::quotient(time, thousand);
    let a = double::units(time as int) as int;
    let q = double::units(secs as int) as int;
    let r = double::units(rate as int) as int;
    let v = double::units(bucket::inflow(ms, rate) as int) as int;
    double::lemma_of_int_bounds(ms, 0);
    double::lemma_quotient_bounds(time, thousand, 0, 10);
    double::lemma_product_bound(secs, rate, 55, 94);
    double::lemma_two_to(-10);
    double::lemma_two_to(-65);
    double::lemma_units_ordered(double::two_to(0), time as int);
    double::lemma_units_ordered(double::two_to(-10), secs as int);
    double::lemma_units_ordered(double::two_to(-65), rate as int);
    lemma_pow2_strictly_increases(63, 1064);
    // The time as a double.
    assert(double::BINADE * 1 <= ms * one) by (nonlinear_arith)
        requires
            1 <= ms,
            one > 0x8000_0000_0000_0000,
    ;
    double::lemma_round_relative((ms * one) as nat, 1);
    assert(a * 1 == a);
    // The time in seconds.
    assert(double::BINADE * (1000 * one) <= a * one) by (nonlinear_arith)
        requires
            a >= one,
            one > 0x8000_0000_0000_0000,
    ;
    double::lemma_round_relative((a * one) as nat, (1000 * one) as nat);
    assert(q * (1000 * one) == (1000 * q) * one) by (nonlinear_arith);
    let big: int = 0x20_0000_0000_0000;
    assert((big - 2) * (1000 * q) <= big * a) by (nonlinear_arith)
        requires
            (big - 2) * ((1000 * q) * one) <= big * (a * one),
            one > 0,
    ;
    assert(big * a <= (big + 3) * (1000 * q)) by (nonlinear_arith)
        requires
            big * (a * one) <= (big + 3) * ((1000 * q) * one),
            one > 0,
    ;
    // The tokens.
    let far = pow2(1064) as int;
    let low = pow2(1009) as int;
    lemma_pow2_adds(1064, 1009);
    lemma_pow2_adds(999, 1074);
    lemma_pow2_strictly_increases(63, 999);
    lemma_pow2_pos(1009);
    assert(double::BINADE * one <= q * r) by (nonlinear_arith)
        requires
            q >= far,
            r >= low,
            far > 0,
            low > 0,
            far * low == pow2(999) * one,
            pow2(999) > 0x8000_0000_0000_0000,
            one > 0,
    ;
    double::lemma_round_relative((q * r) as nat, one as nat);
    // All together.
    let x = ms * r;
    let x1 = x * one;
    let y = a * r;
    let z = q * r;
    let w = v * one;
    assert(((ms * one) * r) == x * one) by (nonlinear_arith)
        requires
            x == ms * r,
    ;
    assert(big * x1 <= (big + 3) * y) by (nonlinear_arith)
        requires
            big * (ms * one) <= (big + 3) * a,
            (ms * one) * r == x1,
            y == a * r,
            r >= 0,
    ;
    assert((big - 2) * y <= big * x1) by (nonlinear_arith)
        requires
            (big - 2) * a <= big * (ms * one),
            (ms * one) * r == x1,
            y == a * r,
            r >= 0,
    ;
    assert(big * y <= 1000 * (big + 3) * z) by (nonlinear_arith)
        requires
            big * a <= (big + 3) * (1000 * q),
            y == a * r,
            z == q * r,
            r >= 0,
    ;
    assert(1000 * (big - 2) * z <= big * y) by (nonlinear_arith)
        requires
            (big - 2) * (1000 * q) <= big * a,
            y == a * r,
            z == q * r,
            r >= 0,
    ;
    lemma_three_roundings(x1, y, z, w);
    assert(big * x <= 1000 * (big + 10) * v) by (nonlinear_arith)
        requires
            big * (x * one) <= 1000 * (big + 10) * (v * one),
            one > 0,
    ;
    assert(1000 * (big - 7) * v <= big * x) by (nonlinear_arith)
        requires
            1000 * (big - 7) * (v * one) <= big * (x * one),
            one > 0,
    ;
}

/// Three roundings in a row.
proof fn lemma_three_roundings(x: int, y: int, z: int, w: int)
    by (nonlinear_arith)
    requires
        0 <= x,
        0 <= y,
        0 <= z,
        0 <= w,
        0x20_0000_0000_0000 * x <= (0x20_0000_0000_0000 + 3) * y,
        (0x20_0000_0000_0000 - 2) * y <= 0x20_0000_0000_0000 * x,
        0x20_0000_0000_0000 * y <= 1000 * (0x20_0000_0000_0000 + 3) * z,
        1000 * (0x20_0000_0000_0000 - 2) * z <= 0x20_0000_0000_0000 * y,
        0x20_0000_0000_0000 * z <= (0x20_0000_0000_0000 + 3) * w,
        (0x20_0000_0000_0000 - 2) * w <= 0x20_0000_0000_0000 * z,
    ensures
        0x20_0000_0000_0000 * x <= 1000 * (0x20_0000_0000_0000 + 10) * w,
        1000 * (0x20_0000_0000_0000 - 7) * w <= 0x20_0000_0000_0000 * x,
{
}

/// The period of a policy in whole milliseconds.
pub open spec fn period_millis(charge: PendingCharge) -> nat {
    charge.period.total_nanos() / 1_000_000
}

/// The state of a bucket expires after the time that it takes to fill up, and
/// one period of at least a millisecond more.
pub open spec fn expires_in_time(charge: PendingCharge, b: StoredBucket) -> bool {
    &&& b.expires_at_ms == b.last_ms + bucket::refill_millis(charge.capacity(), charge.rate())
        + period_millis(charge)
    &&& 1 <= period_millis(charge)
    &&& bucket::EPSILON <= charge.rate()
}

/// The time to fill up is right but for its roundings.
pub proof fn lemma_fill_is_close(charge: PendingCharge)
    requires
        charge.grants(),
        bucket::EPSILON <= charge.rate(),
    ensures
        bucket::refill_millis(charge.capacity(), charge.rate()) < u64::MAX ==> 1000
            * 0x20_0000_0000_0000 * double::units(charge.capacity() as int) <= (0x20_0000_0000_0000
            + 7) * ((bucket::refill_millis(charge.capacity(), charge.rate()) + 1) * double::units(
            charge.rate() as int,
        )),
        (0x20_0000_0000_0000 - 5) * (bucket::refill_millis(charge.capacity(), charge.rate())
            * double::units(charge.rate() as int)) <= 1000 * 0x20_0000_0000_0000 * double::units(
            charge.capacity() as int,
        ),
{
    lemma_one_is_large();
    bucket::lemma_thousand();
    ratelimit::lemma_terms(charge);
    lemma2_to64();
    lemma2_to64_rest();
    let one = double::one() as int;
    let capacity = charge.capacity();
    let rate = charge.rate();
    let fill = bucket::refill_millis(capacity, rate) as int;
    let secs = double::quotient(capacity, rate);
    let ms = double::product(secs, double::of_int(1000));
    let c = double::units(capacity as int) as int;
    let r = double::units(rate as int) as int;
    let s = double::units(secs as int) as int;
    let m = double::units(ms as int) as int;
    double::lemma_quotient_bounds(capacity, rate, 64, -65);
    double::lemma_quotient_bounds(capacity, rate, 0, 94);
    double::lemma_product_bound(secs, double::of_int(1000), 129, 10);
    double::lemma_two_to(94);
    double::lemma_two_to(-94);
    double::lemma_units_ordered(double::two_to(0), capacity as int);
    double::lemma_units_ordered(rate as int, double::two_to(94));
    double::lemma_units_ordered(double::two_to(-94), secs as int);
    double::lemma_units_increase(0, rate as int);
    lemma_pow2_strictly_increases(63, 980);
    // The seconds.
    lemma_pow2_adds(1074, 94);
    lemma_pow2_strictly_increases(94, 950);
    lemma_pow2_adds(52, 950);
    lemma_pow2_strictly_increases(1002, 1074);
    let p94 = pow2(94) as int;
    assert(double::BINADE * p94 <= one) by {
        let p950 = pow2(950) as int;
        assert(double::BINADE * p94 <= double::BINADE * p950);
    }
    assert(double::BINADE * r <= c * one) by (nonlinear_arith)
        requires
            r <= one * p94,
            double::BINADE * p94 <= one,
            c >= one,
            one > 0,
    ;
    double::lemma_round_relative((c * one) as nat, r as nat);
    // The milliseconds.
    assert(double::BINADE * one <= s * (1000 * one)) by (nonlinear_arith)
        requires
            s >= 0x8000_0000_0000_0000,
            one > 0,
    ;
    double::lemma_round_relative((s * (1000 * one)) as nat, one as nat);
    let big: int = 0x20_0000_0000_0000;
    assert(big * (1000 * s) <= (big + 3) * m) by (nonlinear_arith)
        requires
            big * (s * (1000 * one)) <= (big + 3) * (m * one),
            one > 0,
    ;
    // The whole ones.
    vstd::arithmetic::div_mod::lemma_fundamental_div_mod(m, one);
    let q = m / one;
    assert(0 <= m % one < one) by (nonlinear_arith)
        requires
            one > 0,
    ;
    assert(q * one <= m <= (q + 1) * one) by (nonlinear_arith)
        requires
            m == one * q + m % one,
            0 <= m % one < one,
    ;
    assert(fill <= q && (fill < u64::MAX ==> fill == q));
    // All together.
    let x = c * one;
    let y = s * r;
    let z = m * r;
    let w = ((q + 1) * r) * one;
    assert(s * r == r * s) by (nonlinear_arith);
    assert(1000 * big * y <= (big + 3) * z) by (nonlinear_arith)
        requires
            big * (1000 * s) <= (big + 3) * m,
            y == s * r,
            z == m * r,
            r >= 0,
    ;
    assert(z <= w) by (nonlinear_arith)
        requires
            m <= (q + 1) * one,
            z == m * r,
            w == ((q + 1) * r) * one,
            r >= 0,
    ;
    assert(big * x <= (big + 3) * y);
    assert(1000 * big * x <= (big + 7) * w);
    let t = (q + 1) * r;
    assert(1000 * big * c <= (big + 7) * t) by (nonlinear_arith)
        requires
            1000 * big * (c * one) <= (big + 7) * (t * one),
            one > 0,
    ;
    // And the other way round.
    assert((big - 2) * m <= big * (1000 * s)) by (nonlinear_arith)
        requires
            (big - 2) * (m * one) <= big * (s * (1000 * one)),
            one > 0,
    ;
    assert((big - 2) * z <= 1000 * big * y) by (nonlinear_arith)
        requires
            (big - 2) * m <= big * (1000 * s),
            y == s * r,
            z == m * r,
            r >= 0,
    ;
    assert(fill * one <= m) by (nonlinear_arith)
        requires
            fill <= q,
            q * one <= m,
            one > 0,
    ;
    let v = (fill * r) * one;
    assert(v <= z) by (nonlinear_arith)
        requires
            fill * one <= m,
            z == m * r,
            v == (fill * r) * one,
            r >= 0,
    ;
    assert((big - 5) * v <= 1000 * big * x) by (nonlinear_arith)
        requires
            big == 0x20_0000_0000_0000,
            v <= z,
            0 <= z,
            (big - 2) * z <= 1000 * big * y,
            (big - 2) * y <= big * x,
    ;
    let f = fill * r;
    assert((big - 5) * f <= 1000 * big * c) by (nonlinear_arith)
        requires
            (big - 5) * (f * one) <= 1000 * big * (c * one),
            one > 0,
    ;
}

/// What has flowed in by the time at which the state of a bucket expires, next
/// to the time that it takes to fill up.
proof fn lemma_inflow_until_expiry(charge: PendingCharge, b: StoredBucket, now_ms: u64)
    requires
        charge.grants(),
        expires_in_time(charge, b),
        b.expires_at_ms <= now_ms,
    ensures
        ({
            let ms = bucket::elapsed(b.last_ms, now_ms);
            let fill = bucket::refill_millis(charge.capacity(), charge.rate()) as int;
            let c = double::units(charge.capacity() as int) as int;
            let r = double::units(charge.rate() as int) as int;
            let v = double::units(bucket::inflow(ms, charge.rate()) as int) as int;
            &&& fill + period_millis(charge) <= ms
            &&& bucket::inflow(ms, charge.rate()) < double::INFINITY
            &&& 0 < r
            &&& 0x20_0000_0000_0000 * (ms * r) <= 1000 * (0x20_0000_0000_0000 + 10) * v
            &&& 1000 * 0x20_0000_0000_0000 * c <= (0x20_0000_0000_0000 + 7) * ((fill + 1) * r)
            &&& 0x20_0000_0000_0000 * c <= (0x20_0000_0000_0000 + 18) * v
        }),
{
    let rate = charge.rate();
    ratelimit::lemma_terms(charge);
    lemma_fill_is_close(charge);
    let fill = bucket::refill_millis(charge.capacity(), rate) as int;
    let ms = bucket::elapsed(b.last_ms, now_ms);
    lemma_inflow_is_close(ms, rate);
    let c = double::units(charge.capacity() as int) as int;
    let r = double::units(rate as int) as int;
    let v = double::units(bucket::inflow(ms, rate) as int) as int;
    double::lemma_units_increase(0, rate as int);
    let x = ms * r;
    let t = (fill + 1) * r;
    assert(t <= x) by (nonlinear_arith)
        requires
            fill + 1 <= ms,
            x == ms * r,
            t == (fill + 1) * r,
            r >= 0,
    ;
    lemma_expiry_numbers(x, t, v, c);
}

proof fn lemma_expiry_numbers(x: int, t: int, v: int, c: int)
    by (nonlinear_arith)
    requires
        0 <= v,
        t <= x,
        0x20_0000_0000_0000 * x <= 1000 * (0x20_0000_0000_0000 + 10) * v,
        1000 * 0x20_0000_0000_0000 * c <= (0x20_0000_0000_0000 + 7) * t,
    ensures
        0x20_0000_0000_0000 * c <= (0x20_0000_0000_0000 + 18) * v,
{
}

/// Expiry is late enough: from the time at which its state expires on, a refill
/// would have filled the bucket but for the roundings, which take no more than
/// 18 parts in two to the power 53 of the capacity. So to forget the state
/// changes next to nothing. This holds of every period of at least one
/// millisecond, however long the bucket takes to fill up.
pub proof fn lemma_expiry_leaves_nearly_all(charge: PendingCharge, b: StoredBucket, now_ms: u64)
    requires
        charge.grants(),
        bucket::is_amount(b.tokens),
        expires_in_time(charge, b),
        b.expires_at_ms <= now_ms,
    ensures
        ({
            let refilled = bucket::refilled(
                b,
                now_ms,
                charge.period,
                charge.capacity(),
                charge.rate(),
            );
            let forgotten = charge.current(now_ms, None);
            let c = double::units(charge.capacity() as int) as int;
            &&& forgotten.tokens == charge.capacity()
            &&& refilled.last_ms == forgotten.last_ms
            &&& refilled.expires_at_ms == forgotten.expires_at_ms
            &&& refilled.tokens <= charge.capacity()
            &&& 0x20_0000_0000_0000 * (c - double::units(refilled.tokens as int)) <= 18 * c
        }),
{
    let capacity = charge.capacity();
    let rate = charge.rate();
    ratelimit::lemma_terms(charge);
    ratelimit::lemma_absent_is_full(charge, now_ms);
    lemma_inflow_until_expiry(charge, b, now_ms);
    let ms = bucket::elapsed(b.last_ms, now_ms);
    let more = bucket::inflow(ms, rate);
    let tokens = bucket::magnitude(b.tokens);
    double::lemma_sum_bounds(tokens, more, 64);
    let refilled = bucket::refilled(b, now_ms, charge.period, capacity, rate).tokens;
    if refilled < capacity {
        double::lemma_units_ordered(more as int, refilled as int);
        double::lemma_units_ordered(refilled as int, capacity as int);
        let c = double::units(capacity as int) as int;
        let u = double::units(refilled as int) as int;
        let v = double::units(more as int) as int;
        assert(0x20_0000_0000_0000 * (c - u) <= 18 * c) by (nonlinear_arith)
            requires
                0x20_0000_0000_0000 * c <= (0x20_0000_0000_0000 + 18) * v,
                v <= u <= c,
        ;
    }
}

/// Where the bucket fills up within two to the power 47 periods of at least two
/// milliseconds, the period makes up for the roundings, and a refill at the
/// time of expiry leaves just what forgetting the state leaves.
pub proof fn lemma_expiry_is_late_enough(charge: PendingCharge, b: StoredBucket, now_ms: u64)
    requires
        charge.grants(),
        bucket::is_amount(b.tokens),
        expires_in_time(charge, b),
        2 <= period_millis(charge),
        bucket::refill_millis(charge.capacity(), charge.rate()) <= 0x8000_0000_0000
            * period_millis(charge),
        b.expires_at_ms <= now_ms,
    ensures
        bucket::refilled(b, now_ms, charge.period, charge.capacity(), charge.rate())
            == charge.current(now_ms, None),
{
    let capacity = charge.capacity();
    let rate = charge.rate();
    ratelimit::lemma_terms(charge);
    ratelimit::lemma_absent_is_full(charge, now_ms);
    lemma_inflow_until_expiry(charge, b, now_ms);
    let fill = bucket::refill_millis(capacity, rate) as int;
    let period_ms = period_millis(charge) as int;
    let ms = bucket::elapsed(b.last_ms, now_ms);
    let more = bucket::inflow(ms, rate);
    let c = double::units(capacity as int) as int;
    let r = double::units(rate as int) as int;
    let v = double::units(more as int) as int;
    let big: int = 0x20_0000_0000_0000;
    if more < capacity {
        double::lemma_units_increase(more as int, capacity as int);
        let x = ms * r;
        let t = (fill + 1) * r;
        assert((fill + period_ms) * r <= x) by (nonlinear_arith)
            requires
                fill + period_ms <= ms,
                x == ms * r,
                r >= 0,
        ;
        assert(0 <= t) by (nonlinear_arith)
            requires
                t == (fill + 1) * r,
                fill >= 0,
                r >= 0,
        ;
        assert(big * ((fill + period_ms) * r) <= (big + 18) * t) by (nonlinear_arith)
            requires
                big == 0x20_0000_0000_0000,
                big * x <= 1000 * (big + 10) * v,
                0 <= v <= c,
                1000 * big * c <= (big + 7) * t,
                (fill + period_ms) * r <= x,
                0 <= t,
        ;
        assert(big * (fill + period_ms) <= (big + 18) * (fill + 1)) by (nonlinear_arith)
            requires
                big * ((fill + period_ms) * r) <= (big + 18) * ((fill + 1) * r),
                r > 0,
        ;
    }
    let tokens = bucket::magnitude(b.tokens);
    double::lemma_sum_bounds(tokens, more, 64);
}

/// Rounding to the nearest integer is off by at most one half.
pub proof fn lemma_half_even_loses_little(n: nat, d: nat)
    requires
        0 < d,
    ensures
        2 * n <= 2 * (double::half_even(n, d) * d) + d,
        2 * (double::half_even(n, d) * d) <= 2 * n + d,
{
    let q = n as int / d as int;
    let r = n as int % d as int;
    vstd::arithmetic::div_mod::lemma_fundamental_div_mod(n as int, d as int);
    assert(0 <= r < d) by (nonlinear_arith)
        requires
            r == n as int % d as int,
            0 < d,
    ;
    assert(d * q == q * d && (q + 1) * d == q * d + d) by (nonlinear_arith);
}

/// How far a wait gets: `dl` tokens flow in over it, where `d` were missing.
proof fn lemma_wait_flows(
    one: int,
    r: int,
    d: int,
    w: int,
    nanos: int,
    margin: int,
    delta: int,
    dl: int,
)
    requires
        one > 0x8000_0000_0000_0000,
        r > 0,
        0 <= w,
        0x20_0000_0000_0000 * (d * one) <= 0x20_0000_0000_0000 * (w * r) + w * r
            + 0x10_0000_0000_0000 * r,
        2 * (w * 1_000_000_000) <= 2 * (nanos * one) + one,
        nanos + margin <= 1_000_000 * delta,
        dl == delta * r,
    ensures
        1_000_000_000 * 0x20_0000_0000_0000 * d + 0x20_0000_0000_0001 * (margin * r - r)
            <= 1_000_000 * 0x20_0000_0000_0001 * dl,
{
    let mr = margin * r;
    let wr = w * r;
    let nr = nanos * r;
    let rone = r * one;
    let x = d * one;
    let flow = dl * one;
    assert(nr + mr <= 1_000_000 * dl) by (nonlinear_arith)
        requires
            nanos + margin <= 1_000_000 * delta,
            nr == nanos * r,
            mr == margin * r,
            dl == delta * r,
            r > 0,
    ;
    assert(2_000_000_000 * wr <= 2 * (nr * one) + rone) by (nonlinear_arith)
        requires
            2 * (w * 1_000_000_000) <= 2 * (nanos * one) + one,
            wr == w * r,
            nr == nanos * r,
            rone == r * one,
            r > 0,
    ;
    let mrone = mr * one;
    assert(nr * one + mrone <= 1_000_000 * flow) by (nonlinear_arith)
        requires
            nr + mr <= 1_000_000 * dl,
            mrone == mr * one,
            flow == dl * one,
            one > 0,
    ;
    assert(0x8000_0000_0000_0000 * r <= rone) by (nonlinear_arith)
        requires
            one > 0x8000_0000_0000_0000,
            rone == r * one,
            r > 0,
    ;
    assert(1_000_000_000 * 0x20_0000_0000_0000 * x + 0x20_0000_0000_0001 * (mrone - rone)
        <= 1_000_000 * 0x20_0000_0000_0001 * flow) by (nonlinear_arith)
        requires
            0x20_0000_0000_0000 * x <= 0x20_0000_0000_0000 * wr + wr + 0x10_0000_0000_0000 * r,
            2_000_000_000 * wr <= 2 * (nr * one) + rone,
            nr * one + mrone <= 1_000_000 * flow,
            0x8000_0000_0000_0000 * r <= rone,
            r > 0,
    ;
    assert(1_000_000_000 * 0x20_0000_0000_0000 * d + 0x20_0000_0000_0001 * (mr - r) <= 1_000_000
        * 0x20_0000_0000_0001 * dl) by (nonlinear_arith)
        requires
            1_000_000_000 * 0x20_0000_0000_0000 * (d * one) + 0x20_0000_0000_0001 * (mr * one - r
                * one) <= 1_000_000 * 0x20_0000_0000_0001 * (dl * one),
            one > 0,
    ;
}

/// The sum of it: `held` tokens and what flows in until after the wait are no
/// fewer than the price.
proof fn lemma_wait_suffices(
    held: int,
    i1: int,
    t: int,
    p: int,
    r: int,
    mr: int,
    d: int,
    e1: int,
    dl: int,
    v2: int,
)
    by (nonlinear_arith)
    requires
        0 <= held,
        0 <= i1,
        0 <= t < p,
        0x10_0000_0000_0000 <= p,
        1_000_000 * p <= 0x40_0000_0000 * mr,
        0 <= 1_000_000 * r <= mr,
        0 <= d <= p,
        0 <= dl,
        0 <= v2,
        0x20_0000_0000_0000 * t <= 0x20_0000_0000_0000 * (held + i1) + t + 0x10_0000_0000_0000,
        0x20_0000_0000_0000 * (held + i1) <= 0x20_0000_0000_0000 * t + t + 0x10_0000_0000_0000,
        1000 * (0x20_0000_0000_0000 - 7) * i1 <= 0x20_0000_0000_0000 * e1,
        0x20_0000_0000_0000 * (e1 + dl) <= 1000 * (0x20_0000_0000_0000 + 10) * v2,
        0x20_0000_0000_0000 * (p - t) <= 0x20_0000_0000_0000 * d + d + 0x10_0000_0000_0000,
        1_000_000_000 * 0x20_0000_0000_0000 * d + 0x20_0000_0000_0001 * (mr - r) <= 1_000_000
            * 0x20_0000_0000_0001 * dl,
    ensures
        p <= held + v2,
{
}

/// The wait is enough, with a margin for the roundings: a charge that is denied
/// with a wait is admitted from the margin after the wait on, if its bucket is
/// left alone. The margin is at least a millisecond, and one millisecond does
/// for every two to the power 38 seconds that the price takes to flow in. This
/// holds of states that are not from the future.
pub proof fn lemma_wait_and_margin_are_enough(
    charge: PendingCharge,
    now_ms: u64,
    later_ms: u64,
    stored: Option<Seq<u8>>,
    wait: Duration,
    margin_nanos: nat,
)
    requires
        charge.grants(),
        charge.wait_is_short(now_ms, stored),
        charge.verdict(now_ms, stored) == Verdict::Deny(Some(wait)),
        stored matches Some(s) ==> (bucket::decoding(s) matches Some(b) ==> b.last_ms <= now_ms),
        1_000_000 <= margin_nanos,
        1_000_000 * double::units(charge.price() as int) <= 0x40_0000_0000 * (margin_nanos
            * double::units(charge.rate() as int)),
        wait.total_nanos() + margin_nanos <= 1_000_000 * (later_ms - now_ms),
    ensures
        charge.verdict(later_ms, stored) is Admit,
{
    let capacity = charge.capacity();
    let rate = charge.rate();
    let price = charge.price();
    ratelimit::lemma_terms(charge);
    ratelimit::lemma_absent_is_full(charge, now_ms);
    ratelimit::lemma_absent_is_full(charge, later_ms);
    assert(charge.current(now_ms, stored) != charge.current(now_ms, None));
    let b = bucket::decoding(stored->0)->0;
    assert(b.expires_at_ms > now_ms);
    if b.expires_at_ms > later_ms {
        lemma_one_is_large();
        lemma2_to64();
        let now = charge.current(now_ms, stored);
        let one = double::one() as int;
        let first = bucket::elapsed(b.last_ms, now_ms);
        let second = bucket::elapsed(b.last_ms, later_ms);
        let delta = later_ms - now_ms;
        let held = bucket::magnitude(b.tokens);
        let early = bucket::inflow(first, rate);
        let late = bucket::inflow(second, rate);
        let missing = double::difference(price, now.tokens);
        let secs = charge.shortfall_secs(now_ms, stored);
        let tau = double::units(held as int) as int;
        let i1 = double::units(early as int) as int;
        let t = double::units(now.tokens as int) as int;
        let p = double::units(price as int) as int;
        let c = double::units(capacity as int) as int;
        let r = double::units(rate as int) as int;
        let d = double::units(missing as int) as int;
        let w = double::units(secs as int) as int;
        let v2 = double::units(late as int) as int;
        let e1 = first * r;
        let e2 = second * r;
        let dl = delta * r;
        assert(e2 == e1 + dl) by (nonlinear_arith)
            requires
                second == first + delta,
                e1 == first * r,
                e2 == second * r,
                dl == delta * r,
        ;
        assert(dl >= 0) by (nonlinear_arith)
            requires
                dl == delta * r,
                delta >= 0,
                r >= 0,
        ;
        // The price is at least one token.
        double::lemma_of_int_bounds(charge.amount as nat, 0);
        if charge.amount == 0 {
            double::lemma_zero(rate);
        }
        double::lemma_units_ordered(double::two_to(0), price as int);
        double::lemma_units_ordered(price as int, capacity as int);
        double::lemma_units_increase(now.tokens as int, price as int);
        double::lemma_units_increase(0, rate as int);
        // What has flowed in so far.
        if first == 0 {
            bucket::lemma_thousand();
            double::lemma_zero(double::of_int(1000));
            double::lemma_zero(rate);
            assert(e1 == 0) by (nonlinear_arith)
                requires
                    first == 0,
                    e1 == first * r,
            ;
            assert(i1 == 0);
            assert(1000 * (0x20_0000_0000_0000 - 7) * i1 == 0) by (nonlinear_arith)
                requires
                    i1 == 0,
            ;
        } else {
            lemma_inflow_is_close(first, rate);
        }
        lemma_inflow_is_close(second, rate);
        // What is there and what is missing.
        assert(now.tokens == double::sum(held, early));
        double::lemma_round_error((tau + i1) as nat, 1);
        assert(t * 1 == t);
        double::lemma_difference_bound(price, now.tokens);
        double::lemma_units_ordered(missing as int, price as int);
        double::lemma_round_error((p - t) as nat, 1);
        assert(d * 1 == d);
        // The wait.
        double::lemma_round_error((d * one) as nat, r as nat);
        lemma_half_even_loses_little((w * 1_000_000_000) as nat, one as nat);
        double::lemma_nanoseconds_bound(secs);
        duration::lemma_of_nanos(double::nanoseconds(secs));
        let margin = margin_nanos as int;
        let mr = margin * r;
        assert(1_000_000 * r <= mr) by (nonlinear_arith)
            requires
                1_000_000 <= margin,
                mr == margin * r,
                r >= 0,
        ;
        lemma_wait_flows(one, r, d, w, wait.total_nanos() as int, margin, delta, dl);
        lemma_wait_suffices(tau, i1, t, p, r, mr, d, e1, dl, v2);
        assert(1 * p == p);
        double::lemma_round_at_least((tau + v2) as nat, 1, price as int);
    }
}

/// The wait is enough: a charge that is denied with a wait is admitted from one
/// millisecond after the wait on, if its bucket is left alone. This holds of
/// policies whose buckets fill up within two to the power 38 seconds, and of
/// states that are not from the future.
pub proof fn lemma_wait_is_enough(
    charge: PendingCharge,
    now_ms: u64,
    later_ms: u64,
    stored: Option<Seq<u8>>,
    wait: Duration,
)
    requires
        charge.grants(),
        charge.wait_is_short(now_ms, stored),
        charge.verdict(now_ms, stored) == Verdict::Deny(Some(wait)),
        double::units(charge.capacity() as int) <= 0x40_0000_0000 * double::units(
            charge.rate() as int,
        ),
        stored matches Some(s) ==> (bucket::decoding(s) matches Some(b) ==> b.last_ms <= now_ms),
        wait.total_nanos() + 1_000_000 <= 1_000_000 * (later_ms - now_ms),
    ensures
        charge.verdict(later_ms, stored) is Admit,
{
    double::lemma_units_ordered(charge.price() as int, charge.capacity() as int);
    lemma_wait_and_margin_are_enough(charge, now_ms, later_ms, stored, wait, 1_000_000);
}

/// A wait is not short next to the roundings: the price, the wait and the rate
/// in numbers.
proof fn lemma_wait_numbers(one: int, p: int, t: int, r: int, d: int, w: int, nanos: int)
    requires
        one > 0x8000_0000_0000_0000,
        one <= p,
        t < p,
        p <= 0x20_0000_0000_0000 * (p - t),
        0 < r,
        0 <= w,
        0 <= nanos,
        0x20_0000_0000_0000 * (p - t) <= 0x20_0000_0000_0000 * d + d + 0x10_0000_0000_0000,
        0x20_0000_0000_0000 * (d * one) <= 0x20_0000_0000_0000 * (w * r) + w * r
            + 0x10_0000_0000_0000 * r,
        2 * (w * 1_000_000_000) <= 2 * (nanos * one) + one,
    ensures
        1_000_000 * p <= 0x40_0000_0000 * ((1_000_000 + 33 * nanos) * r),
{
    let x = d * one;
    let y = p * one;
    let wr = w * r;
    let nr = nanos * r;
    let rone = r * one;
    let nrone = nr * one;
    assert(999 * p <= 1000 * 0x20_0000_0000_0001 * d) by (nonlinear_arith)
        requires
            p <= 0x20_0000_0000_0000 * d + d + 0x10_0000_0000_0000,
            p > 0x8000_0000_0000_0000,
    ;
    assert(999 * y <= 1000 * 0x20_0000_0000_0001 * x) by (nonlinear_arith)
        requires
            999 * p <= 1000 * 0x20_0000_0000_0001 * d,
            x == d * one,
            y == p * one,
            one > 0,
    ;
    assert(2_000_000_000 * wr <= 2 * nrone + rone) by (nonlinear_arith)
        requires
            2 * (w * 1_000_000_000) <= 2 * (nanos * one) + one,
            wr == w * r,
            nr == nanos * r,
            nrone == nr * one,
            rone == r * one,
            r > 0,
    ;
    assert(0x8000_0000_0000_0000 * r <= rone) by (nonlinear_arith)
        requires
            one > 0x8000_0000_0000_0000,
            rone == r * one,
            r > 0,
    ;
    assert(0 <= nrone) by (nonlinear_arith)
        requires
            nanos >= 0,
            r > 0,
            one > 0,
            nr == nanos * r,
            nrone == nr * one,
    ;
    assert(1_000_000 * y <= 0x40_0000_0000 * (1_000_000 * rone + 33 * nrone)) by (nonlinear_arith)
        requires
            999 * y <= 1000 * 0x20_0000_0000_0001 * x,
            0x20_0000_0000_0000 * x <= 0x20_0000_0000_0000 * wr + wr + 0x10_0000_0000_0000 * r,
            2_000_000_000 * wr <= 2 * nrone + rone,
            0x8000_0000_0000_0000 * r <= rone,
            0 <= nrone,
            r > 0,
    ;
    assert((1_000_000 + 33 * nanos) * r == 1_000_000 * r + 33 * nr) by (nonlinear_arith)
        requires
            nr == nanos * r,
    ;
    assert(1_000_000 * p <= 0x40_0000_0000 * (1_000_000 * r + 33 * nr)) by (nonlinear_arith)
        requires
            1_000_000 * (p * one) <= 0x40_0000_0000 * (1_000_000 * (r * one) + 33 * (nr * one)),
            one > 0,
    ;
}

/// Of slower buckets too the wait is enough, with a margin that grows with it:
/// a charge that is denied with a wait is admitted from 33 times the wait and
/// one millisecond after the wait on, however long the bucket takes to fill up.
/// This holds of states that are not from the future.
pub proof fn lemma_longer_wait_is_enough(
    charge: PendingCharge,
    now_ms: u64,
    later_ms: u64,
    stored: Option<Seq<u8>>,
    wait: Duration,
)
    requires
        charge.grants(),
        charge.wait_is_short(now_ms, stored),
        charge.verdict(now_ms, stored) == Verdict::Deny(Some(wait)),
        stored matches Some(s) ==> (bucket::decoding(s) matches Some(b) ==> b.last_ms <= now_ms),
        wait.total_nanos() + 33 * wait.total_nanos() + 1_000_000 <= 1_000_000 * (later_ms
            - now_ms),
    ensures
        charge.verdict(later_ms, stored) is Admit,
{
    let price = charge.price();
    let tokens = charge.current(now_ms, stored).tokens;
    let missing = double::difference(price, tokens);
    let secs = charge.shortfall_secs(now_ms, stored);
    let nanos = double::nanoseconds(secs);
    ratelimit::lemma_terms(charge);
    lemma_one_is_large();
    lemma2_to64();
    double::lemma_of_int_bounds(charge.amount as nat, 0);
    if charge.amount == 0 {
        double::lemma_zero(charge.rate());
    }
    let one = double::one() as int;
    let p = double::units(price as int) as int;
    let t = double::units(tokens as int) as int;
    let r = double::units(charge.rate() as int) as int;
    let d = double::units(missing as int) as int;
    let w = double::units(secs as int) as int;
    double::lemma_units_ordered(double::two_to(0), price as int);
    double::lemma_units_ordered(tokens as int, price - 1);
    double::lemma_gap_is_wide(price - 1);
    double::lemma_units_increase(0, charge.rate() as int);
    double::lemma_difference_bound(price, tokens);
    double::lemma_round_error((p - t) as nat, 1);
    assert(d * 1 == d);
    double::lemma_round_error((d * one) as nat, r as nat);
    lemma_half_even_loses_little((w * 1_000_000_000) as nat, one as nat);
    double::lemma_nanoseconds_bound(secs);
    duration::lemma_of_nanos(nanos);
    lemma_wait_numbers(one, p, t, r, d, w, nanos as int);
    lemma_wait_and_margin_are_enough(
        charge,
        now_ms,
        later_ms,
        stored,
        wait,
        1_000_000 + 33 * wait.total_nanos(),
    );
}

/// The smaller of two numbers.
pub open spec fn least(a: int, b: int) -> int {
    if a < b {
        a
    } else {
        b
    }
}

/// A refill in numbers: `held` tokens and an exact inflow of `x / 1000`, of
/// which `v` and the sum `u` are the roundings, capped at `c`.
proof fn lemma_refill_numbers(held: int, x: int, v: int, u: int, c: int)
    by (nonlinear_arith)
    requires
        0 <= held <= c,
        0 <= x,
        0 <= v,
        0 <= u,
        0x10_0000_0000_0000 <= c,
        0x20_0000_0000_0000 * x <= 1000 * (0x20_0000_0000_0000 + 10) * v,
        1000 * (0x20_0000_0000_0000 - 7) * v <= 0x20_0000_0000_0000 * x,
        0x20_0000_0000_0000 * u <= 0x20_0000_0000_0000 * (held + v) + u + 0x10_0000_0000_0000,
        0x20_0000_0000_0000 * (held + v) <= 0x20_0000_0000_0000 * u + u + 0x10_0000_0000_0000,
    ensures
        0x20_0000_0000_0000 * (1000 * (if u < c {
            u
        } else {
            c
        }) - (if 1000 * held + x < 1000 * c {
            1000 * held + x
        } else {
            1000 * c
        })) <= 40_000 * c,
        0x20_0000_0000_0000 * ((if 1000 * held + x < 1000 * c {
            1000 * held + x
        } else {
            1000 * c
        }) - 1000 * (if u < c {
            u
        } else {
            c
        })) <= 40_000 * c,
{
}

/// A refill is close to the tokens that were there and the rate times the
/// time, as far as the bucket can hold them.
pub proof fn lemma_refill_is_close(charge: PendingCharge, b: StoredBucket, now_ms: u64)
    requires
        charge.grants(),
        bucket::magnitude(b.tokens) <= charge.capacity(),
        b.last_ms <= now_ms,
    ensures
        ({
            let t = double::units(
                bucket::refilled(
                    b,
                    now_ms,
                    charge.period,
                    charge.capacity(),
                    charge.rate(),
                ).tokens as int,
            ) as int;
            let held = double::units(bucket::magnitude(b.tokens) as int) as int;
            let x = (now_ms - b.last_ms) * double::units(charge.rate() as int);
            let c = double::units(charge.capacity() as int) as int;
            let exact = least(1000 * held + x, 1000 * c);
            &&& 0x20_0000_0000_0000 * (1000 * t - exact) <= 40_000 * c
            &&& 0x20_0000_0000_0000 * (exact - 1000 * t) <= 40_000 * c
        }),
{
    let capacity = charge.capacity();
    let rate = charge.rate();
    ratelimit::lemma_terms(charge);
    lemma_one_is_large();
    let tokens = bucket::magnitude(b.tokens);
    let held = double::units(tokens as int) as int;
    let c = double::units(capacity as int) as int;
    let r = double::units(rate as int) as int;
    let ms = (now_ms - b.last_ms) as nat;
    let x = ms * r;
    double::lemma_units_ordered(tokens as int, capacity as int);
    double::lemma_units_ordered(double::two_to(0), capacity as int);
    if ms == 0 {
        bucket::lemma_refill_at_once(b, now_ms, charge.period, capacity, rate);
        assert(x == 0) by (nonlinear_arith)
            requires
                ms == 0,
                x == ms * r,
        ;
    } else {
        lemma_inflow_is_close(ms, rate);
        bucket::lemma_thousand();
        bucket::lemma_elapsed_bound(ms);
        let more = bucket::inflow(ms, rate);
        double::lemma_product_bound(
            double::quotient(double::of_int(ms), double::of_int(1000)),
            rate,
            55,
            94,
        );
        double::lemma_sum_bounds(tokens, more, 149);
        let v = double::units(more as int) as int;
        let total = double::sum(tokens, more);
        let u = double::units(total as int) as int;
        double::lemma_round_error((held + v) as nat, 1);
        assert(u * 1 == u);
        assert(x >= 0) by (nonlinear_arith)
            requires
                x == ms * r,
                r >= 0,
        ;
        lemma_refill_numbers(held, x, v, u, c);
        if total <= capacity {
            double::lemma_units_ordered(total as int, capacity as int);
        } else {
            double::lemma_units_increase(capacity as int, total as int);
        }
    }
}

/// Continuous refill, with no boundary between windows: refilling a bucket
/// half-way and then again leaves what refilling it once leaves. The times are
/// the same, and the tokens differ by less than one part in two to the power 46
/// of the capacity, for the roundings.
pub proof fn lemma_refill_in_two_steps(
    charge: PendingCharge,
    b: StoredBucket,
    sooner_ms: u64,
    later_ms: u64,
)
    requires
        charge.grants(),
        bucket::magnitude(b.tokens) <= charge.capacity(),
        b.last_ms <= sooner_ms <= later_ms,
    ensures
        ({
            let half_way = bucket::refilled(
                b,
                sooner_ms,
                charge.period,
                charge.capacity(),
                charge.rate(),
            );
            let twice = bucket::refilled(
                half_way,
                later_ms,
                charge.period,
                charge.capacity(),
                charge.rate(),
            );
            let once = bucket::refilled(
                b,
                later_ms,
                charge.period,
                charge.capacity(),
                charge.rate(),
            );
            let c = double::units(charge.capacity() as int) as int;
            let t = double::units(twice.tokens as int) as int;
            let s = double::units(once.tokens as int) as int;
            &&& twice.last_ms == once.last_ms
            &&& twice.expires_at_ms == once.expires_at_ms
            &&& 0x20_0000_0000_0000 * (t - s) <= 120 * c
            &&& 0x20_0000_0000_0000 * (s - t) <= 120 * c
        }),
{
    let capacity = charge.capacity();
    let rate = charge.rate();
    ratelimit::lemma_terms(charge);
    let half_way = bucket::refilled(b, sooner_ms, charge.period, capacity, rate);
    lemma_refill_is_close(charge, b, sooner_ms);
    lemma_refill_is_close(charge, half_way, later_ms);
    lemma_refill_is_close(charge, b, later_ms);
    let r = double::units(rate as int) as int;
    let c = double::units(capacity as int) as int;
    let held = double::units(bucket::magnitude(b.tokens) as int) as int;
    let x1 = (sooner_ms - b.last_ms) * r;
    let x2 = (later_ms - sooner_ms) * r;
    let x = (later_ms - b.last_ms) * r;
    assert(x == x1 + x2) by (nonlinear_arith)
        requires
            x1 == (sooner_ms - b.last_ms) * r,
            x2 == (later_ms - sooner_ms) * r,
            x == (later_ms - b.last_ms) * r,
    ;
    assert(x2 >= 0) by (nonlinear_arith)
        requires
            x2 == (later_ms - sooner_ms) * r,
            later_ms >= sooner_ms,
            r >= 0,
    ;
    let first = least(1000 * held + x1, 1000 * c);
    assert(least(first + x2, 1000 * c) == least(1000 * held + x, 1000 * c));
}

/// What a bucket holds after charges of the given amounts were all admitted at
/// the given times, one after the other, or nothing if one was denied.
pub open spec fn after_all_over(
    charge: PendingCharge,
    amounts: Seq<u64>,
    times: Seq<u64>,
    stored: Option<Seq<u8>>,
) -> Option<Option<Seq<u8>>>
    decreases amounts.len(),
{
    if amounts.len() == 0 {
        Some(stored)
    } else {
        match after_all_over(charge, amounts.drop_last(), times.drop_last(), stored) {
            Some(value) => match ratelimit::asking(charge, amounts.last()).verdict(
                times.last(),
                value,
            ) {
                Verdict::Admit(bucket) => Some(Some(bucket::encoding(bucket))),
                Verdict::Deny(_) => None,
            },
            None => None,
        }
    }
}

/// What a bucket that was written at one time holds at a later one is at most
/// what was written and what has flowed in since, and a margin for the
/// roundings.
proof fn lemma_held_later(charge: PendingCharge, b: StoredBucket, now_ms: u64)
    requires
        charge.grants(),
        b.tokens <= charge.capacity(),
        b.last_ms <= now_ms,
        expires_in_time(charge, b),
    ensures
        0x20_0000_0000_0000 * (1000 * double::units(
            charge.current(now_ms, Some(bucket::encoding(b))).tokens as int,
        )) <= 0x20_0000_0000_0000 * (1000 * double::units(b.tokens as int) + (now_ms - b.last_ms)
            * double::units(charge.rate() as int)) + 58_000 * double::units(
            charge.capacity() as int,
        ),
{
    ratelimit::lemma_terms(charge);
    bucket::lemma_decoding_of_encoding(b);
    lemma_refill_is_close(charge, b, now_ms);
    if b.expires_at_ms <= now_ms {
        lemma_expiry_leaves_nearly_all(charge, b, now_ms);
        assert(charge.current(now_ms, Some(bucket::encoding(b))) == charge.current(now_ms, None));
    }
}

/// A state that is written before the clock runs out expires in time.
proof fn lemma_expiry_fits(charge: PendingCharge, now_ms: u64, last_ms: u64)
    requires
        now_ms <= last_ms,
        last_ms + bucket::refill_millis(charge.capacity(), charge.rate()) + period_millis(charge)
            <= u64::MAX,
    ensures
        bucket::expiry(now_ms, charge.period, charge.capacity(), charge.rate()) == now_ms
            + bucket::refill_millis(charge.capacity(), charge.rate()) + period_millis(charge),
{
}

/// No over-admission over time: what a bucket of at most two to the power 53
/// tokens admits at times that do not go back, and what is left of it, add up
/// to no more than what it held at the first of them, what has flowed in since,
/// and 58 parts in two to the power 53 of its capacity for each further
/// admission. This holds of every period of at least one millisecond, as long
/// as the state expires before the clock runs out.
pub proof fn lemma_no_over_admission_over_time(
    charge: PendingCharge,
    amounts: Seq<u64>,
    times: Seq<u64>,
    stored: Option<Seq<u8>>,
)
    requires
        charge.grants(),
        ratelimit::bucket_size(charge.max, charge.limit) <= 0x20_0000_0000_0000,
        forall|i: int| 0 <= i < amounts.len() ==> #[trigger] amounts[i] <= 0x20_0000_0000_0000,
        0 < amounts.len() == times.len(),
        forall|i: int, j: int| 0 <= i <= j < times.len() ==> times[i] <= times[j],
        1 <= period_millis(charge),
        bucket::EPSILON <= charge.rate(),
        times.last() + bucket::refill_millis(charge.capacity(), charge.rate()) + period_millis(
            charge,
        ) <= u64::MAX,
        after_all_over(charge, amounts, times, stored) is Some,
    ensures
        ({
            let held = double::units(charge.current(times[0], stored).tokens as int);
            let left = double::units(
                charge.current(
                    times.last(),
                    after_all_over(charge, amounts, times, stored)->0,
                ).tokens as int,
            );
            let inflow = (times.last() - times[0]) * double::units(charge.rate() as int);
            let capacity = double::units(charge.capacity() as int);
            0x20_0000_0000_0000 * (1000 * (ratelimit::total(amounts) * double::one() + left))
                <= 0x20_0000_0000_0000 * (1000 * held + inflow) + 58_000 * (capacity * (
            amounts.len() - 1))
        }),
    decreases amounts.len(),
{
    let n = amounts.len() - 1;
    let front = amounts.drop_last();
    let before_times = times.drop_last();
    let last = ratelimit::asking(charge, amounts.last());
    let now_ms = times.last();
    let value = after_all_over(charge, front, before_times, stored)->0;
    let written = last.verdict(now_ms, value)->Admit_0;
    let one = double::one() as int;
    let r = double::units(charge.rate() as int) as int;
    let c = double::units(charge.capacity() as int) as int;
    ratelimit::lemma_terms(charge);
    assert(amounts.last() == amounts[n]);
    ratelimit::lemma_refund_restores(last, now_ms, value);
    double::lemma_difference_bound(last.current(now_ms, value).tokens, last.price());
    lemma_expiry_fits(charge, now_ms, now_ms);
    laws::lemma_just_written(charge, now_ms, written);
    let a = amounts.last() as int;
    let t = double::units(charge.current(now_ms, value).tokens as int) as int;
    let left = double::units(written.tokens as int) as int;
    assert(left == t - a * one);
    let sum = ratelimit::total(front) as int;
    assert((sum + a) * one == sum * one + a * one) by (nonlinear_arith);
    if n == 0 {
        assert(sum == 0);
        assert(sum * one == 0) by (nonlinear_arith)
            requires
                sum == 0,
        ;
        assert((times.last() - times[0]) * r == 0) by (nonlinear_arith)
            requires
                times.last() == times[0],
        ;
        assert(c * n == 0) by (nonlinear_arith)
            requires
                n == 0,
        ;
    } else {
        let sooner_ms = before_times.last();
        assert forall|i: int| 0 <= i < front.len() implies #[trigger] front[i]
            <= 0x20_0000_0000_0000 by {
            assert(front[i] == amounts[i]);
        }
        assert(before_times.last() == times[n - 1]);
        assert(times[n - 1] <= times[n]);
        lemma_no_over_admission_over_time(charge, front, before_times, stored);
        let prior_value = after_all_over(
            charge,
            front.drop_last(),
            before_times.drop_last(),
            stored,
        )->0;
        let prior = ratelimit::asking(charge, front.last());
        let b = prior.verdict(sooner_ms, prior_value)->Admit_0;
        assert(value == Some(bucket::encoding(b)));
        double::lemma_difference_bound(prior.current(sooner_ms, prior_value).tokens, prior.price());
        lemma_expiry_fits(charge, sooner_ms, now_ms);
        laws::lemma_just_written(charge, sooner_ms, b);
        lemma_held_later(charge, b, now_ms);
        let x0 = (sooner_ms - times[0]) * r;
        let x1 = (now_ms - sooner_ms) * r;
        assert((now_ms - times[0]) * r == x0 + x1) by (nonlinear_arith)
            requires
                x0 == (sooner_ms - times[0]) * r,
                x1 == (now_ms - sooner_ms) * r,
        ;
        assert(c * n == c * (n - 1) + c) by (nonlinear_arith);
        assert(before_times[0] == times[0]);
    }
}

/// A charge and its refund in numbers.
proof fn lemma_refund_numbers(t: int, p: int, d: int, u: int, c: int)
    by (nonlinear_arith)
    requires
        0 <= p <= t <= c,
        0x10_0000_0000_0000 <= c,
        0 <= d <= t,
        0 <= u,
        0x20_0000_0000_0000 * d <= 0x20_0000_0000_0000 * (t - p) + d + 0x10_0000_0000_0000,
        0x20_0000_0000_0000 * (t - p) <= 0x20_0000_0000_0000 * d + d + 0x10_0000_0000_0000,
        0x20_0000_0000_0000 * u <= 0x20_0000_0000_0000 * (d + p) + u + 0x10_0000_0000_0000,
        0x20_0000_0000_0000 * (d + p) <= 0x20_0000_0000_0000 * u + u + 0x10_0000_0000_0000,
    ensures
        0x20_0000_0000_0000 * ((if u < c {
            u
        } else {
            c
        }) - t) <= 5 * c,
        0x20_0000_0000_0000 * (t - (if u < c {
            u
        } else {
            c
        })) <= 5 * c,
{
}

/// Of buckets of any size a refund at the same instant restores what a charge
/// took, but for at most five parts in two to the power 53 of the capacity.
pub proof fn lemma_refund_nearly_restores(
    charge: PendingCharge,
    now_ms: u64,
    stored: Option<Seq<u8>>,
)
    requires
        charge.grants(),
        charge.verdict(now_ms, stored) is Admit,
        bucket::expiry(now_ms, charge.period, charge.capacity(), charge.rate()) > now_ms,
    ensures
        ({
            let before = charge.current(now_ms, stored);
            let after = charge.refunded(
                now_ms,
                bucket::encoding(charge.verdict(now_ms, stored)->Admit_0),
            );
            let c = double::units(charge.capacity() as int) as int;
            let t = double::units(before.tokens as int) as int;
            let u = double::units(after.tokens as int) as int;
            &&& after.last_ms == before.last_ms
            &&& after.expires_at_ms == before.expires_at_ms
            &&& 0x20_0000_0000_0000 * (u - t) <= 5 * c
            &&& 0x20_0000_0000_0000 * (t - u) <= 5 * c
        }),
{
    let capacity = charge.capacity();
    let price = charge.price();
    let before = charge.current(now_ms, stored);
    let taken = charge.verdict(now_ms, stored)->Admit_0;
    ratelimit::lemma_terms(charge);
    lemma_one_is_large();
    double::lemma_difference_bound(before.tokens, price);
    laws::lemma_just_written(charge, now_ms, taken);
    let c = double::units(capacity as int) as int;
    let t = double::units(before.tokens as int) as int;
    let p = double::units(price as int) as int;
    let d = double::units(taken.tokens as int) as int;
    let total = double::sum(taken.tokens, price);
    let u = double::units(total as int) as int;
    double::lemma_units_ordered(price as int, before.tokens as int);
    double::lemma_units_ordered(before.tokens as int, capacity as int);
    double::lemma_units_ordered(taken.tokens as int, before.tokens as int);
    double::lemma_units_ordered(double::two_to(0), capacity as int);
    double::lemma_round_error((t - p) as nat, 1);
    assert(d * 1 == d);
    double::lemma_sum_bounds(taken.tokens, price, 64);
    double::lemma_round_error((d + p) as nat, 1);
    assert(u * 1 == u);
    lemma_refund_numbers(t, p, d, u, c);
    if total <= capacity {
        double::lemma_units_ordered(total as int, capacity as int);
    } else {
        double::lemma_units_increase(capacity as int, total as int);
    }
}

/// A refund at the same instant undoes an admitted batch over different buckets
/// of any size, but for at most five parts in two to the power 53 of each
/// capacity.
pub proof fn lemma_refund_nearly_undoes_batch(
    store: Map<Seq<u8>, Seq<u8>>,
    charges: Seq<PendingCharge>,
    now_ms: u64,
    after: Map<Seq<u8>, Seq<u8>>,
    i: int,
)
    requires
        laws::distinct(charges),
        charge::settlement(store, charges, 0, now_ms) == Settlement::Admitted(after),
        0 <= i < charges.len(),
        charges[i].amount > 0,
        bucket::expiry(
            now_ms,
            charges[i].period,
            charges[i].capacity(),
            charges[i].rate(),
        ) > now_ms,
    ensures
        ({
            let before = charges[i].current(
                now_ms,
                charge::lookup(store, laws::place(charges[i])),
            );
            let value = charge::lookup(
                refund::given_back(after, charges, 0, now_ms),
                laws::place(charges[i]),
            );
            let c = double::units(charges[i].capacity() as int) as int;
            let t = double::units(before.tokens as int) as int;
            &&& value matches Some(s)
            &&& bucket::decoding(s) matches Some(b)
            &&& b.last_ms == before.last_ms
            &&& b.expires_at_ms == before.expires_at_ms
            &&& 0x20_0000_0000_0000 * (double::units(b.tokens as int) - t) <= 5 * c
            &&& 0x20_0000_0000_0000 * (t - double::units(b.tokens as int)) <= 5 * c
        }),
{
    laws::lemma_settled_each(store, charges, 0, now_ms, after);
    laws::lemma_given_back_each(after, charges, 0, now_ms);
    let c = charges[i];
    let stored = charge::lookup(store, laws::place(c));
    assert(charge::lookup(after, laws::place(charges[i])) == laws::charged(c, now_ms, stored));
    assert(charge::lookup(
        refund::given_back(after, charges, 0, now_ms),
        laws::place(charges[i]),
    ) == laws::returned(c, now_ms, laws::charged(c, now_ms, stored)));
    lemma_refund_nearly_restores(c, now_ms, stored);
    ratelimit::lemma_terms(c);
    refund::lemma_refund_within_capacity(
        c,
        now_ms,
        bucket::encoding(c.verdict(now_ms, stored)->Admit_0),
    );
    bucket::lemma_decoding_of_encoding(
        c.refunded(now_ms, bucket::encoding(c.verdict(now_ms, stored)->Admit_0)),
    );
}

} // verus!
