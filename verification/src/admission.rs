//! What charges and refunds come to, in whole numbers.
//!
//! The laws here speak of a policy by its four numbers alone: `LIMIT`, `PER` in
//! nanoseconds, `MAX` and the amount. They give the tokens of a bucket in exact
//! arithmetic, and bound how far the stored doubles are from that.
use crate::bucket;
use crate::bytes;
use crate::double;
use crate::duration;
use crate::duration::Duration;
use crate::margins;
use crate::ratelimit;
use crate::ratelimit::{PendingCharge, Verdict};
use vstd::arithmetic::power2::*;
use vstd::prelude::*;

verus! {

/// The tokens that the bucket of a policy holds when it is full.
pub open spec fn full_size(charge: PendingCharge) -> int {
    match charge.max {
        Some(max) => if max == 0 {
            1
        } else {
            max as int
        },
        None => if charge.limit == 0 {
            1
        } else {
            charge.limit as int
        },
    }
}

/// The period of a policy in nanoseconds.
pub open spec fn period_nanos(charge: PendingCharge) -> int {
    charge.period.secs() * 1_000_000_000 + charge.period.nanos()
}

/// The eight bytes from `from` on, the highest first.
pub open spec fn field(s: Seq<u8>, from: int) -> int {
    s[from] * 0x100_0000_0000_0000 + s[from + 1] * 0x1_0000_0000_0000 + s[from + 2]
        * 0x100_0000_0000 + s[from + 3] * 0x1_0000_0000 + s[from + 4] * 0x100_0000 + s[from + 5]
        * 0x1_0000 + s[from + 6] * 0x100 + s[from + 7]
}

/// Stored bytes are the state of a bucket: 25 of them, of which the first is
/// the version, and the tokens are a finite double that is not below zero.
pub open spec fn readable(s: Seq<u8>) -> bool {
    &&& s.len() == 25
    &&& s[0] == 1
    &&& field(s, 1) < 0x7ff0_0000_0000_0000 || field(s, 1) == 0x8000_0000_0000_0000
}

/// Stored bytes are the state of a bucket that has not expired.
pub open spec fn in_force(stored: Option<Seq<u8>>, now_ms: u64) -> bool {
    stored matches Some(s) && readable(s) && field(s, 17) > now_ms
}

/// The smaller of two numbers.
pub open spec fn smaller(a: int, b: int) -> int {
    if a < b {
        a
    } else {
        b
    }
}

/// The value of stored tokens. Minus zero is zero.
pub open spec fn stored_units(s: Seq<u8>) -> int {
    if field(s, 1) == 0x8000_0000_0000_0000 {
        0
    } else {
        double::units(field(s, 1)) as int
    }
}

/// The milliseconds since stored state was written, none where it is from the
/// future.
pub open spec fn age(s: Seq<u8>, now_ms: u64) -> int {
    if field(s, 9) < now_ms {
        now_ms - field(s, 9)
    } else {
        0
    }
}

/// The tokens of a bucket at `now_ms` in exact arithmetic, times the
/// nanoseconds of the period: all that it can hold where there is no state in
/// force, and else what is stored and what has flowed in since, `LIMIT` in each
/// period, as far as the bucket can hold it.
pub open spec fn stock(charge: PendingCharge, now_ms: u64, stored: Option<Seq<u8>>) -> int {
    let full = full_stock(charge);
    if in_force(stored, now_ms) {
        smaller(
            full,
            period_nanos(charge) * stored_units(stored->0) + 1_000_000 * (age(stored->0, now_ms)
                * (charge.limit * double::one())),
        )
    } else {
        full
    }
}

/// A full bucket, times the nanoseconds of the period.
pub open spec fn full_stock(charge: PendingCharge) -> int {
    period_nanos(charge) * (full_size(charge) * double::one())
}

/// The amount of a charge, times the nanoseconds of the period.
pub open spec fn asked_stock(charge: PendingCharge) -> int {
    period_nanos(charge) * (charge.amount * double::one())
}

/// `a` and `b` differ by at most `parts` parts in two to the power 53 of
/// `whole`.
pub open spec fn close(a: int, b: int, parts: int, whole: int) -> bool {
    &&& 0x20_0000_0000_0000 * (a - b) <= parts * whole
    &&& 0x20_0000_0000_0000 * (b - a) <= parts * whole
}

/// One is very many units.
proof fn lemma_one_is_vast()
    ensures
        double::one() > 0x1_0000_0000_0000_0000 * 0x1_0000_0000_0000_0000,
        double::units(double::two_to(0)) == double::one(),
        double::units(double::two_to(65)) == 0x1_0000_0000_0000_0000 * 2 * double::one(),
{
    lemma2_to64();
    lemma2_to64_rest();
    lemma_pow2_adds(64, 64);
    lemma_pow2_strictly_increases(128, 1074);
    double::lemma_two_to(0);
    double::lemma_two_to(65);
    lemma_pow2_adds(65, 1074);
    lemma_pow2_adds(64, 1);
}

/// The double of an integer is close to it.
proof fn lemma_integer_is_close(x: nat)
    requires
        x <= u64::MAX,
    ensures
        ({
            let u = double::units(double::of_int(x) as int) as int;
            &&& (0x20_0000_0000_0000 - 2) * u <= 0x20_0000_0000_0000 * (x * double::one())
            &&& 0x20_0000_0000_0000 * (x * double::one()) <= (0x20_0000_0000_0000 + 3) * u
            &&& double::of_int(x) < double::INFINITY
        }),
{
    lemma_one_is_vast();
    lemma2_to64_rest();
    let one = double::one() as int;
    double::lemma_of_int_bounds(x, 64);
    if x == 0 {
        assert(0 * one == 0);
        double::lemma_zero(double::two_to(0) as u64);
        assert(double::units(0) == 0);
    } else {
        assert(double::BINADE * 1 <= x * one) by (nonlinear_arith)
            requires
                1 <= x,
                one > 0x1_0000_0000_0000_0000 * 0x1_0000_0000_0000_0000,
        ;
        double::lemma_round_relative((x * one) as nat, 1);
        let u = double::units(double::of_int(x) as int) as int;
        assert(u * 1 == u);
    }
}

/// The seconds of a span are close to its length.
proof fn lemma_seconds_are_close(d: Duration)
    requires
        d.secs() * 1_000_000_000 + d.nanos() > 0,
    ensures
        ({
            let s = double::units(duration::seconds(d) as int) as int;
            let n = (d.secs() * 1_000_000_000 + d.nanos()) * double::one();
            &&& (0x20_0000_0000_0000 - 5) * (1_000_000_000 * s) <= 0x20_0000_0000_0000 * n
            &&& 0x20_0000_0000_0000 * n <= (0x20_0000_0000_0000 + 7) * (1_000_000_000 * s)
        }),
{
    lemma_one_is_vast();
    let one = double::one() as int;
    let billion = double::of_int(1_000_000_000);
    let whole = double::of_int(d.secs() as nat);
    let top = double::of_int(d.nanos() as nat);
    let part = double::quotient(top, billion);
    let a = double::units(whole as int) as int;
    let q = double::units(part as int) as int;
    let s = double::units(duration::seconds(d) as int) as int;
    let secs = d.secs() as int;
    let nanos = d.nanos() as int;
    lemma_integer_is_close(d.secs() as nat);
    lemma_integer_is_close(d.nanos() as nat);
    double::lemma_of_int_exact(d.nanos() as nat);
    double::lemma_of_int_exact(1_000_000_000);
    duration::lemma_seconds_terms(d);
    duration::lemma_seconds_bounds(d);
    if nanos == 0 {
        double::lemma_zero(billion);
        assert(double::units(0) == 0);
        assert(0 * one == 0);
        double::lemma_units_injective(top as int, 0);
    } else {
        assert(double::BINADE * (1_000_000_000 * one) <= (nanos * one) * one) by (nonlinear_arith)
            requires
                1 <= nanos,
                one > 0x1_0000_0000_0000_0000 * 0x1_0000_0000_0000_0000,
        ;
        double::lemma_round_relative(((nanos * one) * one) as nat, (1_000_000_000 * one) as nat);
        assert((0x20_0000_0000_0000 - 2) * (1_000_000_000 * q) <= 0x20_0000_0000_0000 * (nanos
            * one)) by (nonlinear_arith)
            requires
                (0x20_0000_0000_0000 - 2) * (q * (1_000_000_000 * one)) <= 0x20_0000_0000_0000 * ((
                nanos * one) * one),
                one > 0,
        ;
        assert(0x20_0000_0000_0000 * (nanos * one) <= (0x20_0000_0000_0000 + 3) * (1_000_000_000
            * q)) by (nonlinear_arith)
            requires
                0x20_0000_0000_0000 * ((nanos * one) * one) <= (0x20_0000_0000_0000 + 3) * (q * (
                1_000_000_000 * one)),
                one > 0,
        ;
    }
    let so = secs * one;
    let no = nanos * one;
    let n = (secs * 1_000_000_000 + nanos) * one;
    assert(n == 1_000_000_000 * so + no) by (nonlinear_arith)
        requires
            so == secs * one,
            no == nanos * one,
            n == (secs * 1_000_000_000 + nanos) * one,
    ;
    assert(n >= one) by (nonlinear_arith)
        requires
            n == (secs * 1_000_000_000 + nanos) * one,
            secs * 1_000_000_000 + nanos >= 1,
            one > 0,
    ;
    assert(double::BINADE * 1 <= a + q) by (nonlinear_arith)
        requires
            0x20_0000_0000_0000 * so <= (0x20_0000_0000_0000 + 3) * a,
            0x20_0000_0000_0000 * no <= (0x20_0000_0000_0000 + 3) * (1_000_000_000 * q),
            n == 1_000_000_000 * so + no,
            n >= one,
            one > 0x1_0000_0000_0000_0000 * 0x1_0000_0000_0000_0000,
    ;
    double::lemma_round_relative((a + q) as nat, 1);
    assert(s * 1 == s);
    lemma_seconds_numbers(so, no, n, a, q, s);
}

proof fn lemma_seconds_numbers(so: int, no: int, n: int, a: int, q: int, s: int)
    by (nonlinear_arith)
    requires
        0 <= so,
        0 <= no,
        0 <= a,
        0 <= q,
        0 <= s,
        n == 1_000_000_000 * so + no,
        (0x20_0000_0000_0000 - 2) * a <= 0x20_0000_0000_0000 * so,
        0x20_0000_0000_0000 * so <= (0x20_0000_0000_0000 + 3) * a,
        (0x20_0000_0000_0000 - 2) * (1_000_000_000 * q) <= 0x20_0000_0000_0000 * no,
        0x20_0000_0000_0000 * no <= (0x20_0000_0000_0000 + 3) * (1_000_000_000 * q),
        (0x20_0000_0000_0000 - 2) * s <= 0x20_0000_0000_0000 * (a + q),
        0x20_0000_0000_0000 * (a + q) <= (0x20_0000_0000_0000 + 3) * s,
    ensures
        (0x20_0000_0000_0000 - 5) * (1_000_000_000 * s) <= 0x20_0000_0000_0000 * n,
        0x20_0000_0000_0000 * n <= (0x20_0000_0000_0000 + 7) * (1_000_000_000 * s),
{
}

/// `LIMIT n PER d` is a refill rate: over a period `LIMIT` tokens flow in, to
/// within 20 parts in two to the power 53, whatever `MAX` is.
pub proof fn lemma_rate_is_limit_per_period(charge: PendingCharge)
    requires
        charge.limit > 0,
        period_nanos(charge) > 0,
    ensures
        close(
            double::units(charge.rate() as int) * period_nanos(charge),
            1_000_000_000 * (charge.limit * double::one()),
            20,
            1_000_000_000 * (charge.limit * double::one()),
        ),
        forall|max: Option<u64>|
            #[trigger] (PendingCharge { max, ..charge }).rate() == charge.rate(),
{
    lemma_one_is_vast();
    ratelimit::lemma_terms(charge);
    lemma_seconds_are_close(charge.period);
    lemma_integer_is_close(charge.limit as nat);
    lemma2_to64();
    let one = double::one() as int;
    let secs = duration::seconds(charge.period);
    let limit = double::of_int(charge.limit as nat);
    let s = double::units(secs as int) as int;
    let l = double::units(limit as int) as int;
    let r = double::units(charge.rate() as int) as int;
    let n = period_nanos(charge) as int;
    let lo = charge.limit * one;
    double::lemma_of_int_bounds(charge.limit as nat, 0);
    double::lemma_units_ordered(double::two_to(0), limit as int);
    double::lemma_units_ordered(secs as int, double::two_to(65));
    double::lemma_units_increase(0, secs as int);
    assert(double::BINADE * s <= l * one) by (nonlinear_arith)
        requires
            s <= 0x1_0000_0000_0000_0000 * 2 * one,
            l >= one,
            one > 0x1_0000_0000_0000_0000 * 0x1_0000_0000_0000_0000,
    ;
    double::lemma_round_relative((l * one) as nat, s as nat);
    let no = n * one;
    let x = (n * r) * one;
    let y = s * r;
    let z = l * one;
    let w = lo * one;
    assert(r * s == y) by (nonlinear_arith)
        requires
            y == s * r,
    ;
    assert((0x20_0000_0000_0000 - 5) * (1_000_000_000 * y) <= 0x20_0000_0000_0000 * x) by (
    nonlinear_arith)
        requires
            (0x20_0000_0000_0000 - 5) * (1_000_000_000 * s) <= 0x20_0000_0000_0000 * (n * one),
            y == s * r,
            x == (n * r) * one,
            r >= 0,
    ;
    assert(0x20_0000_0000_0000 * x <= (0x20_0000_0000_0000 + 7) * (1_000_000_000 * y)) by (
    nonlinear_arith)
        requires
            0x20_0000_0000_0000 * (n * one) <= (0x20_0000_0000_0000 + 7) * (1_000_000_000 * s),
            y == s * r,
            x == (n * r) * one,
            r >= 0,
    ;
    assert((0x20_0000_0000_0000 - 2) * z <= 0x20_0000_0000_0000 * w) by (nonlinear_arith)
        requires
            (0x20_0000_0000_0000 - 2) * l <= 0x20_0000_0000_0000 * lo,
            z == l * one,
            w == lo * one,
            one > 0,
    ;
    assert(0x20_0000_0000_0000 * w <= (0x20_0000_0000_0000 + 3) * z) by (nonlinear_arith)
        requires
            0x20_0000_0000_0000 * lo <= (0x20_0000_0000_0000 + 3) * l,
            z == l * one,
            w == lo * one,
            one > 0,
    ;
    assert(w >= 0 && y >= 0) by (nonlinear_arith)
        requires
            w == lo * one,
            y == s * r,
            lo >= 0,
            one > 0,
            s >= 0,
            r >= 0,
    ;
    lemma_rate_numbers(x, y, z, w);
    let nr = n * r;
    assert(r * n == nr) by (nonlinear_arith)
        requires
            nr == n * r,
    ;
    let whole = 1_000_000_000 * lo;
    assert(0x20_0000_0000_0000 * (nr - whole) <= 20 * whole) by (nonlinear_arith)
        requires
            0x20_0000_0000_0000 * (nr * one - 1_000_000_000 * (lo * one)) <= 20 * (1_000_000_000
                * (lo * one)),
            whole == 1_000_000_000 * lo,
            one > 0,
    ;
    assert(0x20_0000_0000_0000 * (whole - nr) <= 20 * whole) by (nonlinear_arith)
        requires
            0x20_0000_0000_0000 * (1_000_000_000 * (lo * one) - nr * one) <= 20 * (1_000_000_000
                * (lo * one)),
            whole == 1_000_000_000 * lo,
            one > 0,
    ;
}

proof fn lemma_rate_numbers(x: int, y: int, z: int, w: int)
    by (nonlinear_arith)
    requires
        0 <= x,
        0 <= y,
        0 <= z,
        0 <= w,
        (0x20_0000_0000_0000 - 5) * (1_000_000_000 * y) <= 0x20_0000_0000_0000 * x,
        0x20_0000_0000_0000 * x <= (0x20_0000_0000_0000 + 7) * (1_000_000_000 * y),
        (0x20_0000_0000_0000 - 2) * y <= 0x20_0000_0000_0000 * z,
        0x20_0000_0000_0000 * z <= (0x20_0000_0000_0000 + 3) * y,
        (0x20_0000_0000_0000 - 2) * z <= 0x20_0000_0000_0000 * w,
        0x20_0000_0000_0000 * w <= (0x20_0000_0000_0000 + 3) * z,
    ensures
        0x20_0000_0000_0000 * (x - 1_000_000_000 * w) <= 20 * (1_000_000_000 * w),
        0x20_0000_0000_0000 * (1_000_000_000 * w - x) <= 20 * (1_000_000_000 * w),
{
}

proof fn lemma_next_byte(s: Seq<u8>, from: int, to: int)
    requires
        0 <= from <= to < s.len(),
    ensures
        bytes::be_value(s.subrange(from, to + 1)) == bytes::be_value(s.subrange(from, to)) * 256
            + s[to],
{
    assert(s.subrange(from, to + 1).drop_last() =~= s.subrange(from, to));
}

/// Eight bytes in full.
proof fn lemma_field(s: Seq<u8>, from: int)
    requires
        0 <= from,
        from + 8 <= s.len(),
    ensures
        bytes::be_value(s.subrange(from, from + 8)) == field(s, from),
        0 <= field(s, from) < 0x1_0000_0000_0000_0000,
{
    assert(bytes::be_value(s.subrange(from, from)) == 0);
    lemma_next_byte(s, from, from);
    lemma_next_byte(s, from, from + 1);
    lemma_next_byte(s, from, from + 2);
    lemma_next_byte(s, from, from + 3);
    lemma_next_byte(s, from, from + 4);
    lemma_next_byte(s, from, from + 5);
    lemma_next_byte(s, from, from + 6);
    lemma_next_byte(s, from, from + 7);
}

/// The stored form of a bucket, byte by byte: what is read is what the bytes
/// say, and nothing is read from bytes that are no state of a bucket.
pub proof fn lemma_reading_is_by_bytes(s: Seq<u8>)
    ensures
        bucket::decoding(s) is Some <==> readable(s),
        bucket::decoding(s) matches Some(b) ==> {
            &&& b.tokens == field(s, 1)
            &&& b.last_ms == field(s, 9)
            &&& b.expires_at_ms == field(s, 17)
        },
{
    if s.len() == 25 {
        lemma_field(s, 1);
        lemma_field(s, 9);
        lemma_field(s, 17);
    }
}

/// What is written is 25 bytes: the version, and then the tokens, the time of
/// the last refill and the expiry, the highest byte of each first.
pub proof fn lemma_writing_is_by_bytes(b: bucket::StoredBucket)
    ensures
        bucket::encoding(b).len() == 25,
        bucket::encoding(b)[0] == 1,
        field(bucket::encoding(b), 1) == b.tokens,
        field(bucket::encoding(b), 9) == b.last_ms,
        field(bucket::encoding(b), 17) == b.expires_at_ms,
{
    let s = bucket::encoding(b);
    bytes::lemma_be_len(b.tokens as nat, 8);
    bytes::lemma_be_len(b.last_ms as nat, 8);
    bytes::lemma_be_len(b.expires_at_ms as nat, 8);
    bytes::lemma_limits();
    bytes::lemma_be_value_of_bytes(b.tokens as nat, 8);
    bytes::lemma_be_value_of_bytes(b.last_ms as nat, 8);
    bytes::lemma_be_value_of_bytes(b.expires_at_ms as nat, 8);
    assert(s.subrange(1, 9) =~= bytes::be_bytes(b.tokens as nat, 8));
    assert(s.subrange(9, 17) =~= bytes::be_bytes(b.last_ms as nat, 8));
    assert(s.subrange(17, 25) =~= bytes::be_bytes(b.expires_at_ms as nat, 8));
    lemma_field(s, 1);
    lemma_field(s, 9);
    lemma_field(s, 17);
}

/// The capacity of a bucket is close to its size.
proof fn lemma_capacity_is_close(charge: PendingCharge)
    requires
        charge.limit > 0,
        period_nanos(charge) > 0,
    ensures
        ({
            let c = period_nanos(charge) * double::units(charge.capacity() as int);
            let m = full_stock(charge);
            &&& (0x20_0000_0000_0000 - 2) * c <= 0x20_0000_0000_0000 * m
            &&& 0x20_0000_0000_0000 * m <= (0x20_0000_0000_0000 + 3) * c
            &&& 0 < m
            &&& 0 <= c
        }),
{
    lemma_one_is_vast();
    let n = period_nanos(charge);
    let one = double::one() as int;
    let size = full_size(charge);
    assert(size == ratelimit::bucket_size(charge.max, charge.limit));
    lemma_integer_is_close(size as nat);
    let u = double::units(charge.capacity() as int) as int;
    let c = n * u;
    let m = n * (size * one);
    lemma_scaled(n, u, size * one);
    assert(m > 0) by (nonlinear_arith)
        requires
            m == n * (size * one),
            n > 0,
            size > 0,
            one > 0,
    ;
    assert(c >= 0) by (nonlinear_arith)
        requires
            c == n * u,
            n > 0,
            u >= 0,
    ;
}

/// Scaling keeps what is close.
proof fn lemma_scaled(n: int, u: int, x: int)
    requires
        n > 0,
        (0x20_0000_0000_0000 - 2) * u <= 0x20_0000_0000_0000 * x,
        0x20_0000_0000_0000 * x <= (0x20_0000_0000_0000 + 3) * u,
    ensures
        (0x20_0000_0000_0000 - 2) * (n * u) <= 0x20_0000_0000_0000 * (n * x),
        0x20_0000_0000_0000 * (n * x) <= (0x20_0000_0000_0000 + 3) * (n * u),
{
    let a = n * u;
    let b = n * x;
    assert((0x20_0000_0000_0000 - 2) * a <= 0x20_0000_0000_0000 * b) by (nonlinear_arith)
        requires
            (0x20_0000_0000_0000 - 2) * u <= 0x20_0000_0000_0000 * x,
            a == n * u,
            b == n * x,
            n > 0,
    ;
    assert(0x20_0000_0000_0000 * b <= (0x20_0000_0000_0000 + 3) * a) by (nonlinear_arith)
        requires
            0x20_0000_0000_0000 * x <= (0x20_0000_0000_0000 + 3) * u,
            a == n * u,
            b == n * x,
            n > 0,
    ;
}

/// A refill in numbers: `t` tokens are there, `h` were stored, `y` is the
/// inflow by the rounded rate and `z` the exact one, `c` the capacity and `m`
/// the exact size.
proof fn lemma_stock_numbers(t: int, h: int, y: int, z: int, c: int, m: int)
    by (nonlinear_arith)
    requires
        0 <= h,
        0 <= y,
        0 <= z,
        0 <= c,
        0 < m,
        (0x20_0000_0000_0000 - 2) * c <= 0x20_0000_0000_0000 * m,
        0x20_0000_0000_0000 * m <= (0x20_0000_0000_0000 + 3) * c,
        0x20_0000_0000_0000 * (y - z) <= 20 * z,
        0x20_0000_0000_0000 * (z - y) <= 20 * z,
        0x20_0000_0000_0000 * (1000 * t - (if 1000 * h + y < 1000 * c {
            1000 * h + y
        } else {
            1000 * c
        })) <= 40_000 * c,
        0x20_0000_0000_0000 * ((if 1000 * h + y < 1000 * c {
            1000 * h + y
        } else {
            1000 * c
        }) - 1000 * t) <= 40_000 * c,
    ensures
        0x20_0000_0000_0000 * (1000 * t - (if 1000 * h + z < 1000 * m {
            1000 * h + z
        } else {
            1000 * m
        })) <= 100_000 * m,
        0x20_0000_0000_0000 * ((if 1000 * h + z < 1000 * m {
            1000 * h + z
        } else {
            1000 * m
        }) - 1000 * t) <= 100_000 * m,
{
}

/// The bucket that a charge is settled on holds the exact stock, to within 100
/// parts in two to the power 53 of its size.
proof fn lemma_current_is_stock(charge: PendingCharge, now_ms: u64, stored: Option<Seq<u8>>)
    requires
        charge.limit > 0,
        period_nanos(charge) > 0,
    ensures
        close(
            period_nanos(charge) * double::units(charge.current(now_ms, stored).tokens as int),
            stock(charge, now_ms, stored),
            100,
            full_stock(charge),
        ),
        charge.current(now_ms, stored).tokens <= charge.capacity() < double::INFINITY,
        charge.current(now_ms, stored).last_ms == now_ms,
        charge.current(now_ms, stored).expires_at_ms == bucket::expiry(
            now_ms,
            charge.period,
            charge.capacity(),
            charge.rate(),
        ),
{
    let capacity = charge.capacity();
    let rate = charge.rate();
    ratelimit::lemma_terms(charge);
    ratelimit::lemma_absent_is_full(charge, now_ms);
    lemma_capacity_is_close(charge);
    lemma_pow2_pos(1074);
    let n = period_nanos(charge);
    let one = double::one() as int;
    let cu = double::units(capacity as int) as int;
    let c = n * cu;
    let m = full_stock(charge);
    if let Some(s) = stored {
        lemma_reading_is_by_bytes(s);
    }
    let now = charge.current(now_ms, stored);
    let tu = double::units(now.tokens as int) as int;
    let t = n * tu;
    if in_force(stored, now_ms) {
        let s = stored->0;
        let b = bucket::decoding(s)->0;
        let tokens = bucket::magnitude(b.tokens);
        let hu = double::units(tokens as int) as int;
        assert(double::units(0) == 0);
        assert(hu == stored_units(s));
        let h = n * hu;
        let e = age(s, now_ms);
        let z = e * (charge.limit * one);
        assert(z >= 0) by (nonlinear_arith)
            requires
                z == e * (charge.limit * one),
                e >= 0,
                one > 0,
        ;
        assert(h >= 0) by (nonlinear_arith)
            requires
                h == n * hu,
                n > 0,
                hu >= 0,
        ;
        if tokens > capacity {
            let more = bucket::inflow(bucket::elapsed(b.last_ms, now_ms), rate);
            double::lemma_product_at_most_infinity(
                double::quotient(
                    double::of_int(bucket::elapsed(b.last_ms, now_ms)),
                    double::of_int(1000),
                ),
                rate,
            );
            if more < double::INFINITY {
                double::lemma_sum_bounds(tokens, more, 64);
            }
            assert(now.tokens == capacity);
            double::lemma_units_increase(capacity as int, tokens as int);
            assert(c <= h) by (nonlinear_arith)
                requires
                    c == n * cu,
                    h == n * hu,
                    cu <= hu,
                    n > 0,
            ;
            lemma_full_numbers(c, m);
        } else if b.last_ms > now_ms {
            bucket::lemma_refill_at_once(b, now_ms, charge.period, capacity, rate);
            double::lemma_units_ordered(tokens as int, capacity as int);
            assert(h <= c) by (nonlinear_arith)
                requires
                    c == n * cu,
                    h == n * hu,
                    hu <= cu,
                    n > 0,
            ;
            assert(z == 0) by (nonlinear_arith)
                requires
                    z == e * (charge.limit * one),
                    e == 0,
            ;
            lemma_full_numbers(c, m);
        } else {
            margins::lemma_refill_is_close(charge, b, now_ms);
            lemma_rate_is_limit_per_period(charge);
            let r = double::units(rate as int) as int;
            let x = (now_ms - b.last_ms) * r;
            assert(e == now_ms - b.last_ms);
            let y = e * (r * n);
            let w = e * (1_000_000_000 * (charge.limit * one));
            let lo = charge.limit * one;
            let p = r * n;
            let q = 1_000_000_000 * lo;
            assert(0x20_0000_0000_0000 * (y - w) <= 20 * w) by (nonlinear_arith)
                requires
                    0x20_0000_0000_0000 * (p - q) <= 20 * q,
                    y == e * p,
                    w == e * q,
                    e >= 0,
            ;
            assert(0x20_0000_0000_0000 * (w - y) <= 20 * w) by (nonlinear_arith)
                requires
                    0x20_0000_0000_0000 * (q - p) <= 20 * q,
                    y == e * p,
                    w == e * q,
                    e >= 0,
            ;
            assert(w == 1_000_000_000 * z) by (nonlinear_arith)
                requires
                    w == e * (1_000_000_000 * lo),
                    z == e * lo,
            ;
            assert(y == n * x) by (nonlinear_arith)
                requires
                    y == e * (r * n),
                    x == e * r,
            ;
            assert(y >= 0) by (nonlinear_arith)
                requires
                    y == e * (r * n),
                    e >= 0,
                    r >= 0,
                    n > 0,
            ;
            let exact = margins::least(1000 * hu + x, 1000 * cu);
            let scaled = n * exact;
            assert(scaled == margins::least(1000 * h + y, 1000 * c)) by {
                assert(n * (1000 * hu + x) == 1000 * h + y) by (nonlinear_arith)
                    requires
                        h == n * hu,
                        y == n * x,
                ;
                assert(n * (1000 * cu) == 1000 * c) by (nonlinear_arith)
                    requires
                        c == n * cu,
                ;
                let a = 1000 * hu + x;
                let k = 1000 * cu;
                if a < k {
                    assert(n * a < n * k) by (nonlinear_arith)
                        requires
                            a < k,
                            n > 0,
                    ;
                } else {
                    assert(n * k <= n * a) by (nonlinear_arith)
                        requires
                            k <= a,
                            n > 0,
                    ;
                }
            }
            assert(0x20_0000_0000_0000 * (1000 * t - scaled) <= 40_000 * c) by (nonlinear_arith)
                requires
                    0x20_0000_0000_0000 * (1000 * tu - exact) <= 40_000 * cu,
                    t == n * tu,
                    c == n * cu,
                    scaled == n * exact,
                    n > 0,
            ;
            assert(0x20_0000_0000_0000 * (scaled - 1000 * t) <= 40_000 * c) by (nonlinear_arith)
                requires
                    0x20_0000_0000_0000 * (exact - 1000 * tu) <= 40_000 * cu,
                    t == n * tu,
                    c == n * cu,
                    scaled == n * exact,
                    n > 0,
            ;
            lemma_stock_numbers(t, h, y, w, c, m);
        }
    } else {
        lemma_full_numbers(c, m);
    }
}

proof fn lemma_full_numbers(c: int, m: int)
    by (nonlinear_arith)
    requires
        0 <= c,
        0 < m,
        (0x20_0000_0000_0000 - 2) * c <= 0x20_0000_0000_0000 * m,
        0x20_0000_0000_0000 * m <= (0x20_0000_0000_0000 + 3) * c,
    ensures
        0x20_0000_0000_0000 * (c - m) <= 4 * m,
        0x20_0000_0000_0000 * (m - c) <= 4 * m,
        c <= 2 * m,
{
}

/// A charge in numbers: `t` tokens are there, `p` is the price and `a` the
/// exact amount, `d` what is left, and `st` the exact stock.
proof fn lemma_charge_numbers(t: int, p: int, a: int, d: int, nb: int, st: int, c: int, m: int)
    by (nonlinear_arith)
    requires
        0 <= t <= c,
        0 <= p,
        0 <= a,
        st <= m,
        0 < m,
        0 <= nb <= m,
        c <= 2 * m,
        0x20_0000_0000_0000 * (c - m) <= 4 * m,
        0x20_0000_0000_0000 * (t - st) <= 100 * m,
        0x20_0000_0000_0000 * (st - t) <= 100 * m,
        (0x20_0000_0000_0000 - 2) * p <= 0x20_0000_0000_0000 * a,
        0x20_0000_0000_0000 * a <= (0x20_0000_0000_0000 + 3) * p,
    ensures
        t < p ==> 0x20_0000_0000_0000 * (st - a) <= 120 * m,
        p <= t ==> 0x20_0000_0000_0000 * (a - st) <= 120 * m,
        p <= t && 0 <= d <= t && 0x20_0000_0000_0000 * (d - (t - p)) <= d + nb
            && 0x20_0000_0000_0000 * ((t - p) - d) <= d + nb ==> 0x20_0000_0000_0000 * (d - (st
            - a)) <= 120 * m && 0x20_0000_0000_0000 * ((st - a) - d) <= 120 * m,
{
}

/// The numbers of a charge, times the nanoseconds of the period.
proof fn lemma_price_is_close(charge: PendingCharge)
    requires
        charge.limit > 0,
        period_nanos(charge) > 0,
    ensures
        ({
            let n = period_nanos(charge);
            let p = n * double::units(charge.price() as int);
            let a = asked_stock(charge);
            &&& 0 <= p
            &&& 0 <= a
            &&& (0x20_0000_0000_0000 - 2) * p <= 0x20_0000_0000_0000 * a
            &&& 0x20_0000_0000_0000 * a <= (0x20_0000_0000_0000 + 3) * p
            &&& 0 <= n * double::BINADE <= full_stock(charge)
            &&& charge.price() < double::INFINITY
        }),
{
    lemma_one_is_vast();
    let n = period_nanos(charge);
    let one = double::one() as int;
    let u = double::units(charge.price() as int) as int;
    lemma_integer_is_close(charge.amount as nat);
    lemma_scaled(n, u, charge.amount * one);
    assert(n * u >= 0) by (nonlinear_arith)
        requires
            n > 0,
            u >= 0,
    ;
    let x = charge.amount * one;
    assert(x >= 0) by (nonlinear_arith)
        requires
            x == charge.amount * one,
            charge.amount >= 0,
            one > 0,
    ;
    assert(n * x >= 0) by (nonlinear_arith)
        requires
            n > 0,
            x >= 0,
    ;
    let size = full_size(charge);
    assert(n * double::BINADE <= n * (size * one)) by (nonlinear_arith)
        requires
            n > 0,
            size >= 1,
            one > 0x1_0000_0000_0000_0000 * 0x1_0000_0000_0000_0000,
    ;
    assert(n * double::BINADE >= 0) by (nonlinear_arith)
        requires
            n > 0,
    ;
}

/// What a charge comes to, for every policy, every time and whatever is stored.
/// It is admitted if the exact stock is no less than the amount and denied if
/// it is no more, where either can happen only within 120 parts in two to the
/// power 53 of the size. An admission leaves the stock less the amount, to
/// within as much, as of now and with the expiry of what is written now. A denial
/// tells a wait unless the amount is more than the bucket can hold.
pub proof fn lemma_charge_comes_to(charge: PendingCharge, now_ms: u64, stored: Option<Seq<u8>>)
    requires
        charge.limit > 0,
        period_nanos(charge) > 0,
    ensures
        ({
            let stock = stock(charge, now_ms, stored);
            let asked = asked_stock(charge);
            let full = full_stock(charge);
            match charge.verdict(now_ms, stored) {
                Verdict::Admit(after) => {
                    &&& 0x20_0000_0000_0000 * (asked - stock) <= 120 * full
                    &&& close(
                        period_nanos(charge) * double::units(after.tokens as int),
                        stock - asked,
                        120,
                        full,
                    )
                    &&& after.tokens < double::INFINITY
                    &&& after.last_ms == now_ms
                    &&& after.expires_at_ms == bucket::expiry(
                        now_ms,
                        charge.period,
                        charge.capacity(),
                        charge.rate(),
                    )
                    &&& charge.amount <= full_size(charge) || full_size(charge)
                        >= 0x20_0000_0000_0000
                },
                Verdict::Deny(wait) => {
                    &&& 0x20_0000_0000_0000 * (stock - asked) <= 120 * full
                    &&& wait is None ==> charge.amount > full_size(charge)
                    &&& charge.amount > full_size(charge) && full_size(charge)
                        < 0x20_0000_0000_0000 ==> wait is None
                },
            }
        }),
{
    let n = period_nanos(charge);
    let now = charge.current(now_ms, stored);
    let price = charge.price();
    lemma_current_is_stock(charge, now_ms, stored);
    lemma_capacity_is_close(charge);
    lemma_price_is_close(charge);
    lemma_stock_at_most_full(charge, now_ms, stored);
    let size = full_size(charge);
    assert(size == ratelimit::bucket_size(charge.max, charge.limit));
    let m = full_stock(charge);
    let a = asked_stock(charge);
    let st = stock(charge, now_ms, stored);
    let tu = double::units(now.tokens as int) as int;
    let pu = double::units(price as int) as int;
    let cu = double::units(charge.capacity() as int) as int;
    let t = n * tu;
    let p = n * pu;
    let c = n * cu;
    let nb = n * double::BINADE;
    double::lemma_units_ordered(now.tokens as int, charge.capacity() as int);
    assert(0 <= t <= c) by (nonlinear_arith)
        requires
            t == n * tu,
            c == n * cu,
            0 <= tu <= cu,
            n > 0,
    ;
    lemma_full_numbers(c, m);
    // Which amounts can never be had.
    if charge.amount <= size {
        double::lemma_of_int_ordered(charge.amount as nat, size as nat);
    } else if size < 0x20_0000_0000_0000 {
        double::lemma_of_int_ordered((size + 1) as nat, charge.amount as nat);
        double::lemma_of_int_exact(size as nat);
        double::lemma_of_int_exact((size + 1) as nat);
        lemma_pow2_pos(1074);
        let one = double::one() as int;
        assert(size * one < (size + 1) * one) by (nonlinear_arith)
            requires
                one > 0,
        ;
        if double::of_int((size + 1) as nat) <= double::of_int(size as nat) {
            double::lemma_units_ordered(
                double::of_int((size + 1) as nat) as int,
                double::of_int(size as nat) as int,
            );
        }
    }
    if now.tokens < price {
        double::lemma_units_increase(now.tokens as int, price as int);
        assert(t < p) by (nonlinear_arith)
            requires
                t == n * tu,
                p == n * pu,
                tu < pu,
                n > 0,
        ;
        lemma_charge_numbers(t, p, a, 0, nb, st, c, m);
    } else {
        double::lemma_units_ordered(price as int, now.tokens as int);
        assert(p <= t) by (nonlinear_arith)
            requires
                t == n * tu,
                p == n * pu,
                pu <= tu,
                n > 0,
        ;
        let left = double::difference(now.tokens, price);
        let du = double::units(left as int) as int;
        let d = n * du;
        double::lemma_difference_bound(now.tokens, price);
        double::lemma_units_ordered(left as int, now.tokens as int);
        double::lemma_round_error((tu - pu) as nat, 1);
        assert(du * 1 == du);
        lemma_scaled_error(n, du, tu - pu);
        assert(n * (tu - pu) == t - p) by (nonlinear_arith)
            requires
                t == n * tu,
                p == n * pu,
        ;
        assert(0 <= d <= t) by (nonlinear_arith)
            requires
                t == n * tu,
                d == n * du,
                0 <= du <= tu,
                n > 0,
        ;
        lemma_charge_numbers(t, p, a, d, nb, st, c, m);
    }
}

/// Scaling keeps the error of a rounding.
proof fn lemma_scaled_error(n: int, u: int, x: int)
    requires
        n > 0,
        0x20_0000_0000_0000 * u <= 0x20_0000_0000_0000 * x + u + 0x10_0000_0000_0000,
        0x20_0000_0000_0000 * x <= 0x20_0000_0000_0000 * u + u + 0x10_0000_0000_0000,
    ensures
        0x20_0000_0000_0000 * (n * u - n * x) <= n * u + n * double::BINADE,
        0x20_0000_0000_0000 * (n * x - n * u) <= n * u + n * double::BINADE,
{
    let a = n * u;
    let b = n * x;
    let c = n * double::BINADE;
    assert(0x20_0000_0000_0000 * (a - b) <= a + c) by (nonlinear_arith)
        requires
            0x20_0000_0000_0000 * u <= 0x20_0000_0000_0000 * x + u + 0x10_0000_0000_0000,
            a == n * u,
            b == n * x,
            c == n * 0x10_0000_0000_0000,
            n > 0,
    ;
    assert(0x20_0000_0000_0000 * (b - a) <= a + c) by (nonlinear_arith)
        requires
            0x20_0000_0000_0000 * x <= 0x20_0000_0000_0000 * u + u + 0x10_0000_0000_0000,
            a == n * u,
            b == n * x,
            c == n * 0x10_0000_0000_0000,
            n > 0,
    ;
}

/// The exact stock is between nothing and what the bucket can hold.
proof fn lemma_stock_at_most_full(charge: PendingCharge, now_ms: u64, stored: Option<Seq<u8>>)
    requires
        charge.limit > 0,
        period_nanos(charge) > 0,
    ensures
        0 <= stock(charge, now_ms, stored) <= full_stock(charge),
{
    lemma_capacity_is_close(charge);
    lemma_pow2_pos(1074);
    if in_force(stored, now_ms) {
        let s = stored->0;
        let h = stored_units(s);
        let n = period_nanos(charge);
        let e = age(s, now_ms);
        let one = double::one() as int;
        assert(n * h >= 0) by (nonlinear_arith)
            requires
                n > 0,
                h >= 0,
        ;
        let lo = charge.limit * one;
        assert(e * lo >= 0) by (nonlinear_arith)
            requires
                e >= 0,
                lo == charge.limit * one,
                one > 0,
        ;
    }
}

/// A refund in numbers.
proof fn lemma_give_back_numbers(t: int, p: int, a: int, u: int, nb: int, st: int, c: int, m: int)
    by (nonlinear_arith)
    requires
        0 <= t <= c,
        0 <= p,
        0 <= a,
        0 <= u,
        0 <= st <= m,
        0 < m,
        0 <= nb <= m,
        c <= 2 * m,
        0x20_0000_0000_0000 * (c - m) <= 4 * m,
        0x20_0000_0000_0000 * (m - c) <= 4 * m,
        0x20_0000_0000_0000 * (t - st) <= 100 * m,
        0x20_0000_0000_0000 * (st - t) <= 100 * m,
        (0x20_0000_0000_0000 - 2) * p <= 0x20_0000_0000_0000 * a,
        0x20_0000_0000_0000 * a <= (0x20_0000_0000_0000 + 3) * p,
        0x20_0000_0000_0000 * (u - (t + p)) <= u + nb,
        0x20_0000_0000_0000 * ((t + p) - u) <= u + nb,
    ensures
        0x20_0000_0000_0000 * ((if u < c {
            u
        } else {
            c
        }) - (if m < st + a {
            m
        } else {
            st + a
        })) <= 150 * m,
        0x20_0000_0000_0000 * ((if m < st + a {
            m
        } else {
            st + a
        }) - (if u < c {
            u
        } else {
            c
        })) <= 150 * m,
{
}

/// What a refund comes to, for every policy, every time and whatever is stored:
/// the amount is added to the exact stock, as far as the bucket can hold it, to
/// within 150 parts in two to the power 53 of the size, as of now and with the
/// expiry of what is written now.
pub proof fn lemma_refund_comes_to(charge: PendingCharge, now_ms: u64, stored: Seq<u8>)
    requires
        charge.limit > 0,
        period_nanos(charge) > 0,
    ensures
        close(
            period_nanos(charge) * double::units(charge.refunded(now_ms, stored).tokens as int),
            smaller(
                full_stock(charge),
                stock(charge, now_ms, Some(stored)) + asked_stock(charge),
            ),
            150,
            full_stock(charge),
        ),
        charge.refunded(now_ms, stored).tokens < double::INFINITY,
        charge.refunded(now_ms, stored).last_ms == now_ms,
        charge.refunded(now_ms, stored).expires_at_ms == bucket::expiry(
            now_ms,
            charge.period,
            charge.capacity(),
            charge.rate(),
        ),
{
    let n = period_nanos(charge);
    let now = charge.current(now_ms, Some(stored));
    let price = charge.price();
    let capacity = charge.capacity();
    ratelimit::lemma_terms(charge);
    ratelimit::lemma_price_bound(charge);
    lemma_current_is_stock(charge, now_ms, Some(stored));
    lemma_capacity_is_close(charge);
    lemma_price_is_close(charge);
    lemma_stock_at_most_full(charge, now_ms, Some(stored));
    let m = full_stock(charge);
    let a = asked_stock(charge);
    let st = stock(charge, now_ms, Some(stored));
    let tu = double::units(now.tokens as int) as int;
    let pu = double::units(price as int) as int;
    let cu = double::units(capacity as int) as int;
    let total = double::sum(now.tokens, price);
    let uu = double::units(total as int) as int;
    let t = n * tu;
    let p = n * pu;
    let c = n * cu;
    let u = n * uu;
    let nb = n * double::BINADE;
    double::lemma_units_ordered(now.tokens as int, capacity as int);
    assert(0 <= t <= c && 0 <= u) by (nonlinear_arith)
        requires
            t == n * tu,
            c == n * cu,
            u == n * uu,
            0 <= uu,
            0 <= tu <= cu,
            n > 0,
    ;
    lemma_full_numbers(c, m);
    double::lemma_sum_bounds(now.tokens, price, 64);
    double::lemma_round_error((tu + pu) as nat, 1);
    assert(uu * 1 == uu);
    lemma_scaled_error(n, uu, tu + pu);
    assert(n * (tu + pu) == t + p) by (nonlinear_arith)
        requires
            t == n * tu,
            p == n * pu,
    ;
    lemma_give_back_numbers(t, p, a, u, nb, st, c, m);
    if total <= capacity {
        double::lemma_units_ordered(total as int, capacity as int);
        assert(u <= c) by (nonlinear_arith)
            requires
                u == n * uu,
                c == n * cu,
                uu <= cu,
                n > 0,
        ;
    } else {
        double::lemma_units_increase(capacity as int, total as int);
        assert(c <= u) by (nonlinear_arith)
            requires
                u == n * uu,
                c == n * cu,
                cu <= uu,
                n > 0,
        ;
    }
}

/// A wait in numbers: `g` units are missing, `d` and `w` are the roundings of
/// it and of the seconds, `ns` is the wait. All of it is off by little.
proof fn lemma_wait_in_units(one: int, r: int, d: int, w: int, ns: int)
    requires
        one > 0x1_0000_0000_0000_0000 * 0x1_0000_0000_0000_0000,
        0 < r,
        0 <= d,
        0 <= w,
        0 <= ns,
        0x20_0000_0000_0000 * (w * r) <= 0x20_0000_0000_0000 * (d * one) + w * r
            + 0x10_0000_0000_0000 * r,
        0x20_0000_0000_0000 * (d * one) <= 0x20_0000_0000_0000 * (w * r) + w * r
            + 0x10_0000_0000_0000 * r,
        2 * (w * 1_000_000_000) <= 2 * (ns * one) + one,
        2 * (ns * one) <= 2 * (w * 1_000_000_000) + one,
    ensures
        0x20_0000_0000_0000 * (ns * r - 1_000_000_000 * d) <= 0x20_0000_0000_0000 * r
            + 2_000_000_000 * d,
        0x20_0000_0000_0000 * (1_000_000_000 * d - ns * r) <= 0x20_0000_0000_0000 * r
            + 2_000_000_000 * d,
{
    let wr = w * r;
    let x = d * one;
    let v = ns * r;
    let vo = v * one;
    let ro = r * one;
    assert(2_000_000_000 * wr <= 2 * vo + ro && 2 * vo <= 2_000_000_000 * wr + ro) by (
    nonlinear_arith)
        requires
            2 * (w * 1_000_000_000) <= 2 * (ns * one) + one,
            2 * (ns * one) <= 2 * (w * 1_000_000_000) + one,
            wr == w * r,
            v == ns * r,
            vo == v * one,
            ro == r * one,
            r > 0,
    ;
    assert(0x1_0000_0000_0000_0000_0000_0000 * r <= ro) by (nonlinear_arith)
        requires
            one > 0x1_0000_0000_0000_0000 * 0x1_0000_0000_0000_0000,
            ro == r * one,
            r > 0,
    ;
    assert(0 <= wr && 0 <= x) by (nonlinear_arith)
        requires
            wr == w * r,
            x == d * one,
            0 <= w,
            0 < r,
            0 <= d,
            0 < one,
    ;
    assert(0x20_0000_0000_0000 * (vo - 1_000_000_000 * x) <= 0x20_0000_0000_0000 * ro
        + 2_000_000_000 * x && 0x20_0000_0000_0000 * (1_000_000_000 * x - vo)
        <= 0x20_0000_0000_0000 * ro + 2_000_000_000 * x) by (nonlinear_arith)
        requires
            0x20_0000_0000_0000 * wr <= 0x20_0000_0000_0000 * x + wr + 0x10_0000_0000_0000 * r,
            0x20_0000_0000_0000 * x <= 0x20_0000_0000_0000 * wr + wr + 0x10_0000_0000_0000 * r,
            2_000_000_000 * wr <= 2 * vo + ro,
            2 * vo <= 2_000_000_000 * wr + ro,
            0x1_0000_0000_0000_0000_0000_0000 * r <= ro,
            0 <= wr,
            0 <= x,
            0 < r,
    ;
    assert(0x20_0000_0000_0000 * (v - 1_000_000_000 * d) <= 0x20_0000_0000_0000 * r
        + 2_000_000_000 * d && 0x20_0000_0000_0000 * (1_000_000_000 * d - v)
        <= 0x20_0000_0000_0000 * r + 2_000_000_000 * d) by (nonlinear_arith)
        requires
            0x20_0000_0000_0000 * (v * one - 1_000_000_000 * (d * one)) <= 0x20_0000_0000_0000 * (r
                * one) + 2_000_000_000 * (d * one),
            0x20_0000_0000_0000 * (1_000_000_000 * (d * one) - v * one) <= 0x20_0000_0000_0000 * (r
                * one) + 2_000_000_000 * (d * one),
            one > 0,
    ;
}

/// The numbers of a wait, times the nanoseconds of the period: `q` is the wait
/// by the rounded rate, `v` by the exact one, and `lo` what flows in over a
/// nanosecond.
proof fn lemma_wait_sum(
    q: int,
    v: int,
    rn: int,
    lo: int,
    d: int,
    t: int,
    p: int,
    a: int,
    st: int,
    nb: int,
    m: int,
)
    by (nonlinear_arith)
    requires
        0 <= q,
        0 <= v,
        0 <= lo,
        0 <= rn,
        0 <= d <= p,
        0 <= t < p,
        p <= 2 * m,
        0 <= nb <= m,
        0 < m,
        0x20_0000_0000_0000 * (q - 1_000_000_000 * d) <= 0x20_0000_0000_0000 * rn + 2_000_000_000
            * d,
        0x20_0000_0000_0000 * (1_000_000_000 * d - q) <= 0x20_0000_0000_0000 * rn + 2_000_000_000
            * d,
        0x20_0000_0000_0000 * (q - 1_000_000_000 * v) <= 20 * (1_000_000_000 * v),
        0x20_0000_0000_0000 * (1_000_000_000 * v - q) <= 20 * (1_000_000_000 * v),
        0x20_0000_0000_0000 * (rn - 1_000_000_000 * lo) <= 20 * (1_000_000_000 * lo),
        0x20_0000_0000_0000 * (d - (p - t)) <= d + nb,
        0x20_0000_0000_0000 * ((p - t) - d) <= d + nb,
        0x20_0000_0000_0000 * (t - st) <= 100 * m,
        0x20_0000_0000_0000 * (st - t) <= 100 * m,
        (0x20_0000_0000_0000 - 2) * p <= 0x20_0000_0000_0000 * a,
        0x20_0000_0000_0000 * a <= (0x20_0000_0000_0000 + 3) * p,
    ensures
        0x20_0000_0000_0000 * (v - (a - st)) <= 200 * m + 0x20_0000_0000_0000 * (2 * lo),
        0x20_0000_0000_0000 * ((a - st) - v) <= 200 * m + 0x20_0000_0000_0000 * (2 * lo),
{
}

/// The wait that a denial tells is the time in which what is missing flows in,
/// no more and no less, to within two nanoseconds and 200 parts in two to the
/// power 53 of the size.
pub proof fn lemma_wait_comes_to(
    charge: PendingCharge,
    now_ms: u64,
    stored: Option<Seq<u8>>,
    wait: Duration,
)
    requires
        charge.limit > 0,
        period_nanos(charge) > 0,
        charge.wait_is_short(now_ms, stored),
        charge.verdict(now_ms, stored) == Verdict::Deny(Some(wait)),
    ensures
        ({
            let flow = charge.limit * double::one();
            let nanos = wait.secs() * 1_000_000_000 + wait.nanos();
            let missing = asked_stock(charge) - stock(charge, now_ms, stored);
            &&& 0x20_0000_0000_0000 * (nanos * flow - missing) <= 200 * full_stock(charge)
                + 0x20_0000_0000_0000 * (2 * flow)
            &&& 0x20_0000_0000_0000 * (missing - nanos * flow) <= 200 * full_stock(charge)
                + 0x20_0000_0000_0000 * (2 * flow)
        }),
{
    let n = period_nanos(charge);
    let now = charge.current(now_ms, stored);
    let price = charge.price();
    ratelimit::lemma_terms(charge);
    lemma_one_is_vast();
    lemma_current_is_stock(charge, now_ms, stored);
    lemma_capacity_is_close(charge);
    lemma_price_is_close(charge);
    lemma_rate_is_limit_per_period(charge);
    let m = full_stock(charge);
    let a = asked_stock(charge);
    let st = stock(charge, now_ms, stored);
    let one = double::one() as int;
    let lo = charge.limit * one;
    let missing = double::difference(price, now.tokens);
    let secs = charge.shortfall_secs(now_ms, stored);
    let tu = double::units(now.tokens as int) as int;
    let pu = double::units(price as int) as int;
    let cu = double::units(charge.capacity() as int) as int;
    let r = double::units(charge.rate() as int) as int;
    let du = double::units(missing as int) as int;
    let w = double::units(secs as int) as int;
    let ns = double::nanoseconds(secs) as int;
    let t = n * tu;
    let p = n * pu;
    let c = n * cu;
    let d = n * du;
    let nb = n * double::BINADE;
    double::lemma_units_increase(now.tokens as int, price as int);
    double::lemma_units_ordered(price as int, charge.capacity() as int);
    double::lemma_difference_bound(price, now.tokens);
    double::lemma_units_ordered(missing as int, price as int);
    double::lemma_units_increase(0, charge.rate() as int);
    assert(0 <= t < p <= c && 0 <= d <= p) by (nonlinear_arith)
        requires
            t == n * tu,
            p == n * pu,
            c == n * cu,
            d == n * du,
            0 <= tu < pu <= cu,
            0 <= du <= pu,
            n > 0,
    ;
    lemma_full_numbers(c, m);
    double::lemma_round_error((pu - tu) as nat, 1);
    assert(du * 1 == du);
    lemma_scaled_error(n, du, pu - tu);
    assert(n * (pu - tu) == p - t) by (nonlinear_arith)
        requires
            t == n * tu,
            p == n * pu,
    ;
    assert(du * one >= 0) by (nonlinear_arith)
        requires
            du >= 0,
            one > 0,
    ;
    double::lemma_round_error((du * one) as nat, r as nat);
    margins::lemma_half_even_loses_little((w * 1_000_000_000) as nat, one as nat);
    double::lemma_nanoseconds_bound(secs);
    duration::lemma_of_nanos(double::nanoseconds(secs));
    lemma_wait_in_units(one, r, du, w, ns);
    let nr = ns * r;
    let q = n * nr;
    let rn = r * n;
    assert(0x20_0000_0000_0000 * (q - 1_000_000_000 * d) <= 0x20_0000_0000_0000 * rn
        + 2_000_000_000 * d && 0x20_0000_0000_0000 * (1_000_000_000 * d - q)
        <= 0x20_0000_0000_0000 * rn + 2_000_000_000 * d) by (nonlinear_arith)
        requires
            0x20_0000_0000_0000 * (nr - 1_000_000_000 * du) <= 0x20_0000_0000_0000 * r
                + 2_000_000_000 * du,
            0x20_0000_0000_0000 * (1_000_000_000 * du - nr) <= 0x20_0000_0000_0000 * r
                + 2_000_000_000 * du,
            q == n * nr,
            d == n * du,
            rn == r * n,
            n > 0,
    ;
    assert(q == ns * rn) by (nonlinear_arith)
        requires
            q == n * nr,
            nr == ns * r,
            rn == r * n,
    ;
    let v = ns * lo;
    let k = 1_000_000_000 * lo;
    assert(0x20_0000_0000_0000 * (q - 1_000_000_000 * v) <= 20 * (1_000_000_000 * v)
        && 0x20_0000_0000_0000 * (1_000_000_000 * v - q) <= 20 * (1_000_000_000 * v)) by (
    nonlinear_arith)
        requires
            0x20_0000_0000_0000 * (rn - k) <= 20 * k,
            0x20_0000_0000_0000 * (k - rn) <= 20 * k,
            q == ns * rn,
            v == ns * lo,
            k == 1_000_000_000 * lo,
            ns >= 0,
    ;
    assert(lo >= 0 && rn >= 0) by (nonlinear_arith)
        requires
            lo == charge.limit * one,
            one > 0,
            rn == r * n,
            r > 0,
            n > 0,
    ;
    assert(v >= 0 && q >= 0) by (nonlinear_arith)
        requires
            v == ns * lo,
            q == ns * rn,
            ns >= 0,
            lo >= 0,
            rn >= 0,
    ;
    lemma_wait_sum(q, v, rn, lo, d, t, p, a, st, nb, m);
}

/// The time in which a bucket fills up from empty, cut to whole milliseconds, as
/// far as they can be counted.
proof fn lemma_fill_comes_to(charge: PendingCharge)
    requires
        charge.limit > 0,
        period_nanos(charge) > 0,
        period_nanos(charge) <= 0x8_0000_0000_0000 * (1_000_000_000 * charge.limit),
    ensures
        ({
            let fill = bucket::refill_millis(charge.capacity(), charge.rate());
            let flow = charge.limit * double::one();
            let full = full_stock(charge);
            &&& 0 < full
            &&& 0 < flow
            &&& 0x20_0000_0000_0000 * (fill * (1_000_000 * flow) - full) <= 40 * full
            &&& fill < u64::MAX ==> 0x20_0000_0000_0000 * (full - (fill + 1) * (1_000_000 * flow))
                <= 40 * full
        }),
{
    let n = period_nanos(charge);
    let capacity = charge.capacity();
    let rate = charge.rate();
    ratelimit::lemma_terms(charge);
    lemma_one_is_vast();
    lemma_capacity_is_close(charge);
    lemma_rate_is_limit_per_period(charge);
    let one = double::one() as int;
    let lo = charge.limit * one;
    let r = double::units(rate as int) as int;
    let cu = double::units(capacity as int) as int;
    let c = n * cu;
    let m = full_stock(charge);
    let rn = r * n;
    // The rate is not below the smallest one that is reckoned with.
    double::lemma_two_to(-52);
    lemma2_to64_rest();
    lemma_pow2_adds(52, 1022);
    let eps = double::units(double::two_to(-52)) as int;
    assert(one == 0x10_0000_0000_0000 * eps);
    assert(eps <= r) by (nonlinear_arith)
        requires
            0x20_0000_0000_0000 * (1_000_000_000 * lo - rn) <= 20 * (1_000_000_000 * lo),
            rn == r * n,
            lo == charge.limit * one,
            one == 0x10_0000_0000_0000 * eps,
            0 < n <= 0x8_0000_0000_0000 * (1_000_000_000 * charge.limit),
            charge.limit > 0,
            eps > 0,
            r >= 0,
    ;
    if rate < bucket::EPSILON {
        double::lemma_units_increase(rate as int, bucket::EPSILON as int);
    }
    margins::lemma_fill_is_close(charge);
    let fill = bucket::refill_millis(capacity, rate) as int;
    let up = (fill + 1) * r;
    let down = fill * r;
    let x = (fill + 1) * rn;
    let y = fill * rn;
    assert(x == n * up && y == n * down) by (nonlinear_arith)
        requires
            up == (fill + 1) * r,
            down == fill * r,
            x == (fill + 1) * rn,
            y == fill * rn,
            rn == r * n,
    ;
    if fill < u64::MAX {
        assert(1000 * 0x20_0000_0000_0000 * c <= (0x20_0000_0000_0000 + 7) * x) by (nonlinear_arith)
            requires
                1000 * 0x20_0000_0000_0000 * cu <= (0x20_0000_0000_0000 + 7) * up,
                c == n * cu,
                x == n * up,
                n > 0,
        ;
    }
    assert((0x20_0000_0000_0000 - 5) * y <= 1000 * 0x20_0000_0000_0000 * c) by (nonlinear_arith)
        requires
            (0x20_0000_0000_0000 - 5) * down <= 1000 * 0x20_0000_0000_0000 * cu,
            c == n * cu,
            y == n * down,
            n > 0,
    ;
    let k = 1_000_000_000 * lo;
    let xk = (fill + 1) * k;
    let yk = fill * k;
    assert(0x20_0000_0000_0000 * (x - xk) <= 20 * xk) by (nonlinear_arith)
        requires
            0x20_0000_0000_0000 * (rn - k) <= 20 * k,
            x == (fill + 1) * rn,
            xk == (fill + 1) * k,
            fill >= 0,
    ;
    assert(0x20_0000_0000_0000 * (yk - y) <= 20 * yk) by (nonlinear_arith)
        requires
            0x20_0000_0000_0000 * (k - rn) <= 20 * k,
            y == fill * rn,
            yk == fill * k,
            fill >= 0,
    ;
    let xf = (fill + 1) * (1_000_000 * lo);
    let yf = fill * (1_000_000 * lo);
    assert(xk == 1000 * xf && yk == 1000 * yf) by (nonlinear_arith)
        requires
            xk == (fill + 1) * k,
            yk == fill * k,
            k == 1_000_000_000 * lo,
            xf == (fill + 1) * (1_000_000 * lo),
            yf == fill * (1_000_000 * lo),
    ;
    assert(xf >= 0 && yf >= 0) by (nonlinear_arith)
        requires
            xf == (fill + 1) * (1_000_000 * lo),
            yf == fill * (1_000_000 * lo),
            fill >= 0,
            lo == charge.limit * one,
            one > 0,
    ;
    assert(lo > 0 && m > 0 && c >= 0) by (nonlinear_arith)
        requires
            lo == charge.limit * one,
            m == n * (full_size(charge) * one),
            c == n * cu,
            cu >= 0,
            charge.limit > 0,
            full_size(charge) >= 1,
            n > 0,
            one > 0,
    ;
    lemma_fill_numbers(y, yf, c, m);
    if fill < u64::MAX {
        lemma_expiry_sum(x, xf, c, m);
    }
}

/// When state expires: after the time in which a bucket fills up from empty,
/// cut to whole milliseconds, and one period more, cut likewise, but no later
/// than at the end of the clock. It expires at the end of the clock only where
/// that time runs past it. This holds of policies that let one token in within
/// two to the power 51 seconds.
pub proof fn lemma_expiry_comes_to(charge: PendingCharge, now_ms: u64)
    requires
        charge.limit > 0,
        period_nanos(charge) > 0,
        period_nanos(charge) <= 0x8_0000_0000_0000 * (1_000_000_000 * charge.limit),
    ensures
        ({
            let expiry = bucket::expiry(now_ms, charge.period, charge.capacity(), charge.rate());
            let fill = expiry - now_ms - period_nanos(charge) / 1_000_000;
            let flow = charge.limit * double::one();
            let full = full_stock(charge);
            &&& 0x20_0000_0000_0000 * (fill * (1_000_000 * flow) - full) <= 40 * full
            &&& expiry < u64::MAX ==> 0 <= fill && 0x20_0000_0000_0000 * (full - (fill + 1) * (
            1_000_000 * flow)) <= 40 * full
        }),
{
    lemma_fill_comes_to(charge);
    let expiry = bucket::expiry(now_ms, charge.period, charge.capacity(), charge.rate());
    let fill = bucket::refill_millis(charge.capacity(), charge.rate()) as int;
    let left = expiry - now_ms - period_nanos(charge) / 1_000_000;
    let flow = charge.limit * double::one();
    let full = full_stock(charge);
    let ff = 1_000_000 * flow;
    let a = fill * ff;
    let b = left * ff;
    assert(left <= fill);
    assert(b <= a) by (nonlinear_arith)
        requires
            left <= fill,
            ff > 0,
            a == fill * ff,
            b == left * ff,
    ;
}

proof fn lemma_fill_numbers(y: int, yf: int, c: int, m: int)
    by (nonlinear_arith)
    requires
        0 <= c,
        0 < m,
        0 <= yf,
        (0x20_0000_0000_0000 - 2) * c <= 0x20_0000_0000_0000 * m,
        (0x20_0000_0000_0000 - 5) * y <= 1000 * 0x20_0000_0000_0000 * c,
        0x20_0000_0000_0000 * (1000 * yf - y) <= 20 * (1000 * yf),
    ensures
        0x20_0000_0000_0000 * (yf - m) <= 40 * m,
{
}

proof fn lemma_expiry_sum(x: int, xf: int, c: int, m: int)
    by (nonlinear_arith)
    requires
        0 <= c,
        0 < m,
        0 <= xf,
        0x20_0000_0000_0000 * m <= (0x20_0000_0000_0000 + 3) * c,
        1000 * 0x20_0000_0000_0000 * c <= (0x20_0000_0000_0000 + 7) * x,
        0x20_0000_0000_0000 * (x - 1000 * xf) <= 20 * (1000 * xf),
    ensures
        0x20_0000_0000_0000 * (m - xf) <= 40 * m,
{
}

/// The decision on a charge of up to two to the power 53 tokens is exact: it is
/// admitted if and only if the bucket as it is now has no fewer tokens than were
/// asked for.
pub proof fn lemma_decision_is_exact(charge: PendingCharge, now_ms: u64, stored: Option<Seq<u8>>)
    requires
        charge.limit > 0,
        period_nanos(charge) > 0,
        charge.amount <= 0x20_0000_0000_0000,
    ensures
        charge.verdict(now_ms, stored) is Admit <==> charge.amount * double::one()
            <= double::units(charge.current(now_ms, stored).tokens as int),
{
    let tokens = charge.current(now_ms, stored).tokens;
    let price = charge.price();
    double::lemma_of_int_exact(charge.amount as nat);
    if tokens < price {
        double::lemma_units_increase(tokens as int, price as int);
    } else {
        double::lemma_units_ordered(price as int, tokens as int);
    }
}

/// Whole doubles are ordered as their integers, strictly.
proof fn lemma_whole_order(x: nat, y: nat)
    requires
        x < y <= 0x20_0000_0000_0000,
    ensures
        double::of_int(x) < double::of_int(y) < double::INFINITY,
{
    lemma_pow2_pos(1074);
    double::lemma_of_int_exact(x);
    double::lemma_of_int_exact(y);
    let one = double::one() as int;
    assert(x * one < y * one) by (nonlinear_arith)
        requires
            x < y,
            one > 0,
    ;
    if double::of_int(y) <= double::of_int(x) {
        double::lemma_units_ordered(double::of_int(y) as int, double::of_int(x) as int);
    }
}

/// In whole numbers the arithmetic is exact. Take a policy that lets `r` tokens
/// in each second over a period of `p` seconds, and stored state of `k` tokens
/// from `e` seconds ago. The bucket now holds `k + r * e` tokens, or its size if
/// that is less. A charge is admitted if and only if it is for no more, and leaves
/// the rest. A refund adds its amount, up to the size.
pub proof fn lemma_whole_numbers(
    charge: PendingCharge,
    now_ms: u64,
    s: Seq<u8>,
    k: nat,
    r: nat,
    p: nat,
    e: nat,
)
    requires
        charge.period.secs() == p,
        charge.period.nanos() == 0,
        0 < p,
        0 < r,
        charge.limit == r * p,
        r * p <= 0x20_0000_0000_0000,
        in_force(Some(s), now_ms),
        field(s, 1) == double::of_int(k),
        field(s, 9) + 1000 * e == now_ms,
        1000 * e <= 0x20_0000_0000_0000,
        e * r <= 0x20_0000_0000_0000,
        k <= full_size(charge) <= 0x20_0000_0000_0000,
        k + e * r + charge.amount <= 0x20_0000_0000_0000,
    ensures
        ({
            let held = smaller(full_size(charge), (k + e * r) as int);
            &&& match charge.verdict(now_ms, Some(s)) {
                Verdict::Admit(after) => charge.amount <= held && after.tokens == double::of_int(
                    (held - charge.amount) as nat,
                ),
                Verdict::Deny(wait) => charge.amount > held && (wait is None <==> charge.amount
                    > full_size(charge)),
            }
            &&& charge.refunded(now_ms, s).tokens == double::of_int(
                smaller(full_size(charge), k + e * r + charge.amount) as nat,
            )
        }),
{
    let size = full_size(charge) as nat;
    let amount = charge.amount as nat;
    assert(size == ratelimit::bucket_size(charge.max, charge.limit));
    assert(1000 <= 0x20_0000_0000_0000);
    assert(0 * 1_000_000_000 == 0);
    assert(p <= r * p && r <= r * p) by (nonlinear_arith)
        requires
            0 < p,
            0 < r,
    ;
    // The rate.
    double::lemma_whole_numbers_are_exact(0, 1_000_000_000);
    double::lemma_whole_numbers_are_exact(p, 0);
    double::lemma_whole_numbers_are_exact(r, p);
    assert(charge.rate() == double::of_int(r));
    // The inflow.
    assert(e * 1000 == 1000 * e);
    double::lemma_whole_numbers_are_exact(e, 1000);
    double::lemma_whole_numbers_are_exact(e, r);
    assert(bucket::inflow((1000 * e) as nat, charge.rate()) == double::of_int(e * r));
    // The stored bucket.
    lemma_reading_is_by_bytes(s);
    double::lemma_of_int_exact(k);
    let b = bucket::decoding(s)->0;
    assert(b.tokens == double::of_int(k));
    assert(bucket::elapsed(b.last_ms, now_ms) == 1000 * e);
    double::lemma_whole_numbers_are_exact(k, e * r);
    double::lemma_of_int_exact(e * r);
    let sum = k + e * r;
    if sum > size {
        lemma_whole_order(size, sum);
    } else if sum < size {
        lemma_whole_order(sum, size);
    }
    let held = smaller(full_size(charge), (k + e * r) as int) as nat;
    assert(charge.current(now_ms, Some(s)).tokens == double::of_int(held));
    // The charge.
    if amount > size {
        lemma_whole_order(size, amount);
    } else if amount < size {
        lemma_whole_order(amount, size);
    }
    if amount > held {
        lemma_whole_order(held, amount);
    } else {
        if amount < held {
            lemma_whole_order(amount, held);
        }
        double::lemma_whole_numbers_are_exact(held, amount);
    }
    // The refund.
    double::lemma_of_int_exact(held);
    double::lemma_of_int_exact(amount);
    double::lemma_whole_numbers_are_exact(held, amount);
    if held + amount > size {
        lemma_whole_order(size, held + amount);
    } else if held + amount < size {
        lemma_whole_order(held + amount, size);
    }
}

/// A wait is told wherever it is due, if the bucket of the policy fills up within
/// two to the power 62 seconds.
pub proof fn lemma_waits_are_told(charge: PendingCharge, now_ms: u64, stored: Option<Seq<u8>>)
    requires
        charge.limit > 0,
        period_nanos(charge) > 0,
        full_size(charge) * period_nanos(charge) <= 0x4000_0000_0000_0000 * (1_000_000_000
            * charge.limit),
    ensures
        charge.wait_is_short(now_ms, stored),
{
    let now = charge.current(now_ms, stored);
    let price = charge.price();
    if now.tokens < price <= charge.capacity() {
        ratelimit::lemma_terms(charge);
        lemma_one_is_vast();
        lemma_capacity_is_close(charge);
        lemma_rate_is_limit_per_period(charge);
        let n = period_nanos(charge);
        let size = full_size(charge);
        let one = double::one() as int;
        let m = full_stock(charge);
        let missing = double::difference(price, now.tokens);
        let du = double::units(missing as int) as int;
        let cu = double::units(charge.capacity() as int) as int;
        let r = double::units(charge.rate() as int) as int;
        let lo = charge.limit * one;
        let k = 1_000_000_000 * lo;
        let rn = r * n;
        let c = n * cu;
        double::lemma_difference_bound(price, now.tokens);
        double::lemma_units_ordered(missing as int, charge.capacity() as int);
        double::lemma_units_increase(0, charge.rate() as int);
        assert(m <= 0x4000_0000_0000_0000 * k) by (nonlinear_arith)
            requires
                m == n * (size * one),
                size * n <= 0x4000_0000_0000_0000 * (1_000_000_000 * charge.limit),
                k == 1_000_000_000 * (charge.limit * one),
                one > 0,
        ;
        assert(c <= 0x8000_0000_0000_0000 * rn) by (nonlinear_arith)
            requires
                m <= 0x4000_0000_0000_0000 * k,
                (0x20_0000_0000_0000 - 2) * c <= 0x20_0000_0000_0000 * m,
                0x20_0000_0000_0000 * (k - rn) <= 20 * k,
                k >= 0,
                c >= 0,
        ;
        assert(cu <= 0x8000_0000_0000_0000 * r) by (nonlinear_arith)
            requires
                c <= 0x8000_0000_0000_0000 * rn,
                c == n * cu,
                rn == r * n,
                n > 0,
        ;
        lemma2_to64_rest();
        double::lemma_two_to(63);
        double::lemma_two_to(64);
        lemma_pow2_adds(63, 1074);
        let top = double::units(double::two_to(63)) as int;
        assert(top == 0x8000_0000_0000_0000 * one);
        assert(du * one <= r * top) by (nonlinear_arith)
            requires
                du <= cu,
                cu <= 0x8000_0000_0000_0000 * r,
                top == 0x8000_0000_0000_0000 * one,
                one > 0,
        ;
        double::lemma_round_at_most((du * one) as nat, r as nat, double::two_to(63));
    }
}

} // verus!
