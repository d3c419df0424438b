//! Stored token buckets: their keys, their encoding and their refill.
//!
//! Token counts, capacities and refill rates are doubles, held as their bit
//! patterns (see [`crate::double`]).
use crate::bytes;
use crate::double;
use crate::duration::Duration;
use crate::hasher::BucketKey;
use vstd::prelude::*;

verus! {

/// Bucket value encoding version. Bump when the layout changes; unknown
/// versions decode as absent, so stale state simply starts over.
pub const BUCKET_ENCODING_VERSION: u8 = 1;

/// Length of an encoded bucket.
pub const BUCKET_ENCODED_LEN: usize = 25;

/// The double minus zero, the one pattern with a sign that counts as a number
/// of tokens.
pub const MINUS_ZERO: u64 = 0x8000_0000_0000_0000;

/// The distance from one to the next double, two to the power -52.
pub const EPSILON: u64 = 0x3cb0_0000_0000_0000;

/// The state of one token bucket.
#[derive(Clone, Copy, Debug, PartialEq, Eq, Structural)]
pub struct StoredBucket {
    /// The tokens, as the bit pattern of a double.
    pub tokens: u64,
    /// When the tokens were last brought up to date.
    pub last_ms: u64,
    /// From when on the state counts as absent.
    pub expires_at_ms: u64,
}

/// The bytes that every bucket key starts with: `/!rl`.
pub open spec fn rate_limit_prefix() -> Seq<u8> {
    seq![0x2f, 0x21, 0x72, 0x6c]
}

/// Where a bucket is stored.
pub open spec fn stored_at(key: BucketKey) -> Seq<u8> {
    rate_limit_prefix() + key.0@
}

/// A pattern that a bucket can hold: a finite double that is not below zero.
pub open spec fn is_amount(tokens: u64) -> bool {
    tokens < double::INFINITY || tokens == MINUS_ZERO
}

/// The pattern of the same number without a sign.
pub open spec fn magnitude(tokens: u64) -> u64 {
    if tokens == MINUS_ZERO {
        0
    } else {
        tokens
    }
}

/// The encoding of a bucket: the version, then the tokens, the time of the
/// last refill and the expiry, each big-endian.
pub open spec fn encoding(bucket: StoredBucket) -> Seq<u8> {
    seq![BUCKET_ENCODING_VERSION] + bytes::be_bytes(bucket.tokens as nat, 8) + bytes::be_bytes(
        bucket.last_ms as nat,
        8,
    ) + bytes::be_bytes(bucket.expires_at_ms as nat, 8)
}

/// The bucket that an encoding holds, if it is one.
pub open spec fn decoding(s: Seq<u8>) -> Option<StoredBucket> {
    if s.len() == BUCKET_ENCODED_LEN && s[0] == BUCKET_ENCODING_VERSION && is_amount(
        bytes::be_value(s.subrange(1, 9)) as u64,
    ) {
        Some(
            StoredBucket {
                tokens: bytes::be_value(s.subrange(1, 9)) as u64,
                last_ms: bytes::be_value(s.subrange(9, 17)) as u64,
                expires_at_ms: bytes::be_value(s.subrange(17, 25)) as u64,
            },
        )
    } else {
        None
    }
}

/// Reading back an encoded bucket gives the bucket, and one whose tokens are
/// no amount reads as absent.
pub proof fn lemma_decoding_of_encoding(bucket: StoredBucket)
    ensures
        encoding(bucket).len() == BUCKET_ENCODED_LEN,
        decoding(encoding(bucket)) == if is_amount(bucket.tokens) {
            Some(bucket)
        } else {
            None
        },
{
    let a = bytes::be_bytes(bucket.tokens as nat, 8);
    let b = bytes::be_bytes(bucket.last_ms as nat, 8);
    let c = bytes::be_bytes(bucket.expires_at_ms as nat, 8);
    bytes::lemma_be_len(bucket.tokens as nat, 8);
    bytes::lemma_be_len(bucket.last_ms as nat, 8);
    bytes::lemma_be_len(bucket.expires_at_ms as nat, 8);
    bytes::lemma_limits();
    bytes::lemma_be_value_of_bytes(bucket.tokens as nat, 8);
    bytes::lemma_be_value_of_bytes(bucket.last_ms as nat, 8);
    bytes::lemma_be_value_of_bytes(bucket.expires_at_ms as nat, 8);
    assert(encoding(bucket).subrange(1, 9) =~= a);
    assert(encoding(bucket).subrange(9, 17) =~= b);
    assert(encoding(bucket).subrange(17, 25) =~= c);
}

/// Only one byte string reads as a given bucket: its encoding.
pub proof fn lemma_encoding_of_decoding(s: Seq<u8>)
    requires
        decoding(s) is Some,
    ensures
        encoding(decoding(s)->0) == s,
{
    bytes::lemma_limits();
    bytes::lemma_be_bytes_of_value(s.subrange(1, 9));
    bytes::lemma_be_bytes_of_value(s.subrange(9, 17));
    bytes::lemma_be_bytes_of_value(s.subrange(17, 25));
    assert(s =~= seq![s[0]] + s.subrange(1, 9) + s.subrange(9, 17) + s.subrange(17, 25));
}

/// Two keys share a stored bucket only if they are the same.
pub proof fn lemma_stored_at_injective(a: BucketKey, b: BucketKey)
    requires
        stored_at(a) == stored_at(b),
    ensures
        a == b,
{
    assert(a.0@ =~= stored_at(a).subrange(4, 20));
    assert(b.0@ =~= stored_at(b).subrange(4, 20));
    assert(a.0 =~= b.0);
}

/// The start of the bucket keyspace.
pub fn rate_limit_start() -> (start: Vec<u8>)
    ensures
        start@ == rate_limit_prefix(),
{
    let start: Vec<u8> = vec![0x2f, 0x21, 0x72, 0x6c];
    assert(start@ =~= rate_limit_prefix());
    start
}

/// The key that a bucket is stored under.
pub fn kv_key(key: &BucketKey) -> (out: Vec<u8>)
    ensures
        out@ == stored_at(*key),
{
    let mut out: Vec<u8> = rate_limit_start();
    let mut i: usize = 0;
    while i < 16
        invariant
            i <= 16,
            out@ == rate_limit_prefix() + key.0@.subrange(0, i as int),
        decreases 16 - i,
    {
        assert(key.0@.subrange(0, i + 1) =~= key.0@.subrange(0, i as int).push(key.0@[i as int]));
        out.push(key.0[i]);
        i = i + 1;
    }
    assert(key.0@.subrange(0, 16) =~= key.0@);
    out
}

/// Writes a bucket down.
pub fn encode_bucket(bucket: &StoredBucket) -> (out: Vec<u8>)
    ensures
        out@ == encoding(*bucket),
{
    let mut out: Vec<u8> = Vec::new();
    out.push(BUCKET_ENCODING_VERSION);
    bytes::push_be(&mut out, bucket.tokens, 8);
    bytes::push_be(&mut out, bucket.last_ms, 8);
    bytes::push_be(&mut out, bucket.expires_at_ms, 8);
    assert(out@ =~= encoding(*bucket));
    out
}

/// Reads a bucket back. Anything that is no encoding of this version reads as
/// absent.
pub fn decode_bucket(input: &[u8]) -> (bucket: Option<StoredBucket>)
    ensures
        bucket == decoding(input@),
{
    if input.len() != BUCKET_ENCODED_LEN || input[0] != BUCKET_ENCODING_VERSION {
        return None;
    }
    let tokens: u64 = bytes::read_be(input, 1);
    if tokens >= double::INFINITY && tokens != MINUS_ZERO {
        return None;
    }
    let last_ms: u64 = bytes::read_be(input, 9);
    let expires_at_ms: u64 = bytes::read_be(input, 17);
    Some(StoredBucket { tokens, last_ms, expires_at_ms })
}

/// An integer, or the largest that a counter can hold.
pub open spec fn saturated(x: int) -> u64 {
    if x < u64::MAX {
        x as u64
    } else {
        u64::MAX
    }
}

/// How many milliseconds a bucket takes to fill up from empty, by a rate that
/// is not taken to be lower than [`EPSILON`].
pub open spec fn refill_millis(capacity: u64, refill_per_second: u64) -> u64 {
    let rate = if refill_per_second < EPSILON {
        EPSILON
    } else {
        refill_per_second
    };
    let secs = double::quotient(capacity, rate);
    let ms = double::product(secs, double::of_int(1000));
    if secs == double::INFINITY || ms == double::INFINITY {
        u64::MAX
    } else {
        double::truncated(ms)
    }
}

/// When the state of a bucket that was brought up to date at `now_ms` expires:
/// after the time that it takes to fill up, and one period more.
pub open spec fn expiry(
    now_ms: u64,
    period: Duration,
    capacity: u64,
    refill_per_second: u64,
) -> u64 {
    saturated(
        now_ms + refill_millis(capacity, refill_per_second) + saturated(
            (period.total_nanos() / 1_000_000) as int,
        ),
    )
}

/// A bucket that is full at `now_ms`.
pub open spec fn full(
    now_ms: u64,
    period: Duration,
    capacity: u64,
    refill_per_second: u64,
) -> StoredBucket {
    StoredBucket {
        tokens: capacity,
        last_ms: now_ms,
        expires_at_ms: expiry(now_ms, period, capacity, refill_per_second),
    }
}

/// The bucket that stored bytes stand for at `now_ms`. Without state, or with
/// state that does not decode or has expired, it is a full one.
pub open spec fn loaded(
    old_value: Option<Seq<u8>>,
    now_ms: u64,
    period: Duration,
    capacity: u64,
    refill_per_second: u64,
) -> StoredBucket {
    match old_value {
        Some(s) => match decoding(s) {
            Some(bucket) => if bucket.expires_at_ms > now_ms {
                bucket
            } else {
                full(now_ms, period, capacity, refill_per_second)
            },
            None => full(now_ms, period, capacity, refill_per_second),
        },
        None => full(now_ms, period, capacity, refill_per_second),
    }
}

/// The tokens that flow in over a number of milliseconds.
pub open spec fn inflow(elapsed_ms: nat, refill_per_second: u64) -> u64 {
    double::product(
        double::quotient(double::of_int(elapsed_ms), double::of_int(1000)),
        refill_per_second,
    )
}

/// `tokens` and `more`, as far as the bucket can hold them.
pub open spec fn topped_up(tokens: u64, more: u64, capacity: u64) -> u64 {
    if more == double::INFINITY || double::sum(magnitude(tokens), more) > capacity {
        capacity
    } else {
        double::sum(magnitude(tokens), more)
    }
}

/// The milliseconds from one time to another, none where the clock went back.
pub open spec fn elapsed(from_ms: u64, to_ms: u64) -> nat {
    if from_ms < to_ms {
        (to_ms - from_ms) as nat
    } else {
        0
    }
}

/// A bucket brought up to date at `now_ms`.
pub open spec fn refilled(
    bucket: StoredBucket,
    now_ms: u64,
    period: Duration,
    capacity: u64,
    refill_per_second: u64,
) -> StoredBucket {
    StoredBucket {
        tokens: topped_up(
            bucket.tokens,
            inflow(elapsed(bucket.last_ms, now_ms), refill_per_second),
            capacity,
        ),
        last_ms: now_ms,
        expires_at_ms: expiry(now_ms, period, capacity, refill_per_second),
    }
}

/// The double of one thousand lies between two powers of two.
pub proof fn lemma_thousand()
    ensures
        double::two_to(9) <= double::of_int(1000) <= double::two_to(10),
{
    vstd::arithmetic::power2::lemma2_to64();
    double::lemma_of_int_bounds(1000, 9);
    double::lemma_of_int_bounds(1000, 10);
}

/// Computes when a bucket expires.
pub fn expiry_millis(now_ms: u64, period: Duration, capacity: u64, refill_per_second: u64) -> (ms:
    u64)
    requires
        capacity < double::INFINITY,
        refill_per_second < double::INFINITY,
    ensures
        ms == expiry(now_ms, period, capacity, refill_per_second),
{
    proof {
        lemma_thousand();
    }
    let rate: u64 = if refill_per_second < EPSILON {
        EPSILON
    } else {
        refill_per_second
    };
    let secs: u64 = double::divide(capacity, rate);
    proof {
        double::lemma_quotient_at_most_infinity(capacity, rate);
        double::lemma_product_at_most_infinity(secs, double::of_int(1000));
    }
    let refill_ms: u64 = if secs >= double::INFINITY {
        u64::MAX
    } else {
        let ms: u64 = double::multiply(secs, double::from_u64(1000));
        if ms >= double::INFINITY {
            u64::MAX
        } else {
            double::to_u64(ms)
        }
    };
    let period_ms: u128 = period.as_millis();
    let period_ms: u64 = if period_ms < u64::MAX as u128 {
        period_ms as u64
    } else {
        u64::MAX
    };
    now_ms.saturating_add(refill_ms).saturating_add(period_ms)
}

/// Loads a bucket from what is stored.
pub fn load_bucket(
    old_value: Option<&[u8]>,
    now_ms: u64,
    period: Duration,
    capacity: u64,
    refill_per_second: u64,
) -> (bucket: StoredBucket)
    requires
        capacity < double::INFINITY,
        refill_per_second < double::INFINITY,
    ensures
        bucket == loaded(
            match old_value {
                Some(s) => Some(s@),
                None => None,
            },
            now_ms,
            period,
            capacity,
            refill_per_second,
        ),
{
    if let Some(s) = old_value {
        if let Some(bucket) = decode_bucket(s) {
            if bucket.expires_at_ms > now_ms {
                return bucket;
            }
        }
    }
    StoredBucket {
        tokens: capacity,
        last_ms: now_ms,
        expires_at_ms: expiry_millis(now_ms, period, capacity, refill_per_second),
    }
}

/// Adds tokens to a number of tokens, up to the capacity.
pub fn top_up(tokens: u64, more: u64, capacity: u64) -> (total: u64)
    requires
        is_amount(tokens),
        more <= double::INFINITY,
    ensures
        total == topped_up(tokens, more, capacity),
{
    if more == double::INFINITY {
        return capacity;
    }
    let tokens: u64 = if tokens == MINUS_ZERO {
        0
    } else {
        tokens
    };
    let total: u64 = double::plus(tokens, more);
    if total > capacity {
        capacity
    } else {
        total
    }
}

/// Brings a bucket up to date.
pub fn refill_bucket(
    bucket: &mut StoredBucket,
    now_ms: u64,
    period: Duration,
    capacity: u64,
    refill_per_second: u64,
)
    requires
        is_amount(old(bucket).tokens),
        capacity < double::INFINITY,
        refill_per_second < double::INFINITY,
    ensures
        *final(bucket) == refilled(*old(bucket), now_ms, period, capacity, refill_per_second),
        final(bucket).tokens <= capacity,
{
    proof {
        lemma_thousand();
        lemma_elapsed_bound(elapsed(bucket.last_ms, now_ms));
        double::lemma_product_at_most_infinity(
            double::quotient(
                double::of_int(elapsed(bucket.last_ms, now_ms)),
                double::of_int(1000),
            ),
            refill_per_second,
        );
    }
    let ms: u64 = now_ms.saturating_sub(bucket.last_ms);
    let secs: u64 = double::divide(double::from_u64(ms), double::from_u64(1000));
    let more: u64 = double::multiply(secs, refill_per_second);
    bucket.tokens = top_up(bucket.tokens, more, capacity);
    bucket.last_ms = now_ms;
    bucket.expires_at_ms = expiry_millis(now_ms, period, capacity, refill_per_second);
}

/// A number of milliseconds is at most two to the power 55 seconds.
pub proof fn lemma_elapsed_bound(ms: nat)
    requires
        ms <= u64::MAX,
    ensures
        double::of_int(ms) <= double::two_to(64),
        double::quotient(double::of_int(ms), double::of_int(1000)) <= double::two_to(55),
{
    vstd::arithmetic::power2::lemma2_to64_rest();
    lemma_thousand();
    double::lemma_of_int_bounds(ms, 64);
    double::lemma_quotient_bounds(double::of_int(ms), double::of_int(1000), 64, 9);
}

/// A bucket never holds more than its capacity, however it is refilled.
pub proof fn lemma_refill_within_capacity(
    bucket: StoredBucket,
    now_ms: u64,
    period: Duration,
    capacity: u64,
    refill_per_second: u64,
)
    ensures
        refilled(bucket, now_ms, period, capacity, refill_per_second).tokens <= capacity,
{
}

/// Where no time has passed a refill adds nothing.
pub proof fn lemma_refill_at_once(
    bucket: StoredBucket,
    now_ms: u64,
    period: Duration,
    capacity: u64,
    refill_per_second: u64,
)
    requires
        now_ms <= bucket.last_ms,
        magnitude(bucket.tokens) <= capacity < double::INFINITY,
        0 < refill_per_second < double::INFINITY,
    ensures
        refilled(bucket, now_ms, period, capacity, refill_per_second).tokens == magnitude(
            bucket.tokens,
        ),
{
    lemma_thousand();
    double::lemma_zero(double::of_int(1000));
    double::lemma_zero(refill_per_second);
    if magnitude(bucket.tokens) > 0 {
        double::lemma_zero(magnitude(bucket.tokens));
    }
}

/// Refill is continuous in time: a later refill leaves no fewer tokens, and
/// no boundary between periods resets anything.
pub proof fn lemma_refill_grows(
    bucket: StoredBucket,
    sooner_ms: u64,
    later_ms: u64,
    period: Duration,
    capacity: u64,
    refill_per_second: u64,
)
    requires
        sooner_ms <= later_ms,
    ensures
        refilled(bucket, sooner_ms, period, capacity, refill_per_second).tokens
            <= refilled(bucket, later_ms, period, capacity, refill_per_second).tokens,
{
    lemma_thousand();
    let a = elapsed(bucket.last_ms, sooner_ms);
    let b = elapsed(bucket.last_ms, later_ms);
    double::lemma_of_int_ordered(a, b);
    let thousand = double::of_int(1000);
    double::lemma_quotient_ordered(double::of_int(a), double::of_int(b), thousand);
    let sa = double::quotient(double::of_int(a), thousand);
    let sb = double::quotient(double::of_int(b), thousand);
    double::lemma_product_ordered(sa, sb, refill_per_second);
    double::lemma_product_at_most_infinity(sb, refill_per_second);
    double::lemma_sum_ordered(
        inflow(a, refill_per_second),
        inflow(b, refill_per_second),
        magnitude(bucket.tokens),
    );
}

/// A bucket is stored under `/!rl` and the sixteen bytes of its key.
pub proof fn lemma_stored_under_key(key: BucketKey)
    ensures
        stored_at(key).len() == 20,
        stored_at(key)[0] == 0x2f,
        stored_at(key)[1] == 0x21,
        stored_at(key)[2] == 0x72,
        stored_at(key)[3] == 0x6c,
        forall|i: int| 0 <= i < 16 ==> stored_at(key)[4 + i] == #[trigger] key.0@[i],
{
}

/// How long state lives does not depend on when it was written, up to the end of
/// the clock: what is written later expires as much later.
pub proof fn lemma_lifetime_is_constant(
    sooner_ms: u64,
    later_ms: u64,
    period: Duration,
    capacity: u64,
    refill_per_second: u64,
)
    requires
        sooner_ms <= later_ms,
    ensures
        ({
            let sooner = expiry(sooner_ms, period, capacity, refill_per_second);
            let later = expiry(later_ms, period, capacity, refill_per_second);
            &&& sooner_ms <= sooner
            &&& later == u64::MAX || later - later_ms == sooner - sooner_ms
            &&& sooner == u64::MAX ==> later == u64::MAX
            &&& later == u64::MAX ==> sooner + (later_ms - sooner_ms) >= u64::MAX
            &&& sooner < u64::MAX ==> sooner - sooner_ms >= period.total_nanos() / 1_000_000
        }),
{
}

/// A bucket that refills more slowly than two to the power -52 tokens a second
/// is taken to refill at that rate, so that its state expires at all.
pub proof fn lemma_slow_rates_fill_alike(capacity: u64, rate: u64)
    requires
        rate <= 0x3cb0_0000_0000_0000,
    ensures
        refill_millis(capacity, rate) == refill_millis(capacity, 0x3cb0_0000_0000_0000),
        double::two_to(-52) == 0x3cb0_0000_0000_0000,
{
}

} // verus!
