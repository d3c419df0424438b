//! Policy admissions and what becomes of them on a stored bucket.
use crate::bucket;
use crate::bucket::StoredBucket;
use crate::double;
use crate::duration;
use crate::duration::Duration;
use crate::hasher::BucketKey;
use vstd::prelude::*;

verus! {

/// A single policy admission pending settlement against the datastore.
#[derive(Debug, PartialEq, Eq)]
pub struct PendingCharge {
    /// Human-readable policy locus (e.g. `table post`, `field name on post`)
    /// used in denial errors. Never holds the bucket key value.
    pub scope: String,
    pub key: BucketKey,
    pub limit: u64,
    pub period: Duration,
    pub max: Option<u64>,
    pub amount: u64,
}

impl Clone for PendingCharge {
    fn clone(&self) -> (charge: Self)
        ensures
            charge == *self,
    {
        PendingCharge {
            scope: self.scope.clone(),
            key: self.key,
            limit: self.limit,
            period: self.period,
            max: self.max,
            amount: self.amount,
        }
    }
}

/// What a charge comes to on one bucket.
#[derive(Clone, Copy, Debug, PartialEq, Eq)]
pub enum Verdict {
    /// The tokens are there. This is the bucket without them.
    Admit(StoredBucket),
    /// They are not. This is how long it takes until they are, or nothing
    /// where the bucket can never hold as many.
    Deny(Option<Duration>),
}

/// The most tokens that the bucket of a policy holds: `MAX`, or else `LIMIT`,
/// and at least one.
pub open spec fn bucket_size(max: Option<u64>, limit: u64) -> u64 {
    let size = match max {
        Some(max) => max,
        None => limit,
    };
    if size < 1 {
        1
    } else {
        size
    }
}

impl PendingCharge {
    /// Whether the policy lets anything through at all.
    pub open spec fn grants(self) -> bool {
        self.limit > 0 && self.period.total_nanos() > 0
    }

    /// The capacity of the bucket, as a double.
    pub open spec fn capacity(self) -> u64 {
        double::of_int(bucket_size(self.max, self.limit) as nat)
    }

    /// The tokens that flow in each second, as a double.
    pub open spec fn rate(self) -> u64 {
        double::quotient(double::of_int(self.limit as nat), duration::seconds(self.period))
    }

    /// The tokens asked for, as a double.
    pub open spec fn price(self) -> u64 {
        double::of_int(self.amount as nat)
    }

    /// The bucket at `now_ms`, before the charge, given what is stored.
    pub open spec fn current(self, now_ms: u64, stored: Option<Seq<u8>>) -> StoredBucket {
        bucket::refilled(
            bucket::loaded(stored, now_ms, self.period, self.capacity(), self.rate()),
            now_ms,
            self.period,
            self.capacity(),
            self.rate(),
        )
    }

    /// The seconds until the missing tokens have flowed in, as a double.
    pub open spec fn shortfall_secs(self, now_ms: u64, stored: Option<Seq<u8>>) -> u64 {
        double::quotient(
            double::difference(self.price(), self.current(now_ms, stored).tokens),
            self.rate(),
        )
    }

    /// Whether the wait, if there is one to be told, is short enough for a
    /// span of time: less than two to the power 64 seconds.
    pub open spec fn wait_is_short(self, now_ms: u64, stored: Option<Seq<u8>>) -> bool {
        self.current(now_ms, stored).tokens < self.price() <= self.capacity()
            ==> self.shortfall_secs(now_ms, stored) < double::two_to(64)
    }

    /// What the charge comes to at `now_ms`, given what is stored.
    pub open spec fn verdict(self, now_ms: u64, stored: Option<Seq<u8>>) -> Verdict {
        let bucket = self.current(now_ms, stored);
        if self.price() > self.capacity() {
            Verdict::Deny(None)
        } else if bucket.tokens < self.price() {
            Verdict::Deny(
                Some(
                    duration::of_nanos(double::nanoseconds(self.shortfall_secs(now_ms, stored))),
                ),
            )
        } else {
            Verdict::Admit(
                StoredBucket { tokens: double::difference(bucket.tokens, self.price()), ..bucket },
            )
        }
    }

    /// The bucket at `now_ms` after the amount was given back, given what is
    /// stored.
    pub open spec fn refunded(self, now_ms: u64, stored: Seq<u8>) -> StoredBucket {
        let bucket = self.current(now_ms, Some(stored));
        StoredBucket {
            tokens: bucket::topped_up(bucket.tokens, self.price(), self.capacity()),
            ..bucket
        }
    }

    /// Whether the policy lets anything through at all.
    pub fn is_granting(&self) -> (b: bool)
        ensures
            b == self.grants(),
    {
        self.limit != 0 && !self.period.is_zero()
    }

    /// The capacity and the refill rate, as doubles.
    fn terms(&self) -> (terms: (u64, u64))
        requires
            self.grants(),
        ensures
            terms.0 == self.capacity(),
            terms.1 == self.rate(),
            double::two_to(0) <= terms.0 <= double::two_to(64),
            double::two_to(-65) <= terms.1 <= double::two_to(94),
    {
        proof {
            lemma_terms(*self);
        }
        let size: u64 = match self.max {
            Some(max) => max,
            None => self.limit,
        };
        let size: u64 = if size < 1 {
            1
        } else {
            size
        };
        let capacity: u64 = double::from_u64(size);
        let rate: u64 = double::divide(
            double::from_u64(self.limit),
            self.period.as_secs_double(),
        );
        (capacity, rate)
    }

    /// Brings the stored bucket up to date.
    fn bring_up(&self, now_ms: u64, stored: Option<&[u8]>, terms: (u64, u64)) -> (bucket: StoredBucket)
        requires
            self.grants(),
            terms.0 == self.capacity(),
            terms.1 == self.rate(),
            terms.0 < double::INFINITY,
            terms.1 < double::INFINITY,
        ensures
            bucket == self.current(
                now_ms,
                match stored {
                    Some(s) => Some(s@),
                    None => None,
                },
            ),
            bucket.tokens <= terms.0,
    {
        let mut bucket = bucket::load_bucket(stored, now_ms, self.period, terms.0, terms.1);
        bucket::refill_bucket(&mut bucket, now_ms, self.period, terms.0, terms.1);
        bucket
    }

    /// Tests whether the wait that a denial would tell fits a span of time.
    pub fn has_short_wait(&self, now_ms: u64, stored: Option<&[u8]>) -> (b: bool)
        requires
            self.grants(),
        ensures
            b == self.wait_is_short(
                now_ms,
                match stored {
                    Some(s) => Some(s@),
                    None => None,
                },
            ),
    {
        let terms = self.terms();
        let bucket = self.bring_up(now_ms, stored, terms);
        let amount: u64 = double::from_u64(self.amount);
        if bucket.tokens < amount && amount <= terms.0 {
            proof {
                double::lemma_difference_bound(amount, bucket.tokens);
            }
            double::divide(double::minus(amount, bucket.tokens), terms.1) < 0x43f0_0000_0000_0000
        } else {
            true
        }
    }

    /// Settles the charge on what is stored.
    pub fn settle(&self, now_ms: u64, stored: Option<&[u8]>) -> (verdict: Verdict)
        requires
            self.grants(),
            self.wait_is_short(
                now_ms,
                match stored {
                    Some(s) => Some(s@),
                    None => None,
                },
            ),
        ensures
            verdict == self.verdict(
                now_ms,
                match stored {
                    Some(s) => Some(s@),
                    None => None,
                },
            ),
    {
        let terms = self.terms();
        let mut bucket = self.bring_up(now_ms, stored, terms);
        let amount: u64 = double::from_u64(self.amount);
        if bucket.tokens < amount {
            if amount > terms.0 {
                // Can never be admitted regardless of refill.
                return Verdict::Deny(None);
            }
            proof {
                double::lemma_difference_bound(amount, bucket.tokens);
            }
            let wait: u64 = double::divide(double::minus(amount, bucket.tokens), terms.1);
            return Verdict::Deny(Some(Duration::from_secs_double(wait)));
        }
        bucket.tokens = double::minus(bucket.tokens, amount);
        Verdict::Admit(bucket)
    }

    /// Gives the amount back, as far as the bucket can hold it.
    pub fn give_back(&self, now_ms: u64, stored: &[u8]) -> (bucket: StoredBucket)
        requires
            self.grants(),
        ensures
            bucket == self.refunded(now_ms, stored@),
    {
        let terms = self.terms();
        let mut bucket = self.bring_up(now_ms, Some(stored), terms);
        proof {
            lemma_price_bound(*self);
        }
        bucket.tokens = bucket::top_up(bucket.tokens, double::from_u64(self.amount), terms.0);
        bucket
    }
}

/// The price of a charge is a finite double.
pub proof fn lemma_price_bound(charge: PendingCharge)
    ensures
        charge.price() <= double::two_to(64),
{
    vstd::arithmetic::power2::lemma2_to64_rest();
    double::lemma_of_int_bounds(charge.amount as nat, 64);
}

/// The capacity and the rate of a policy that lets anything through are
/// finite and positive.
pub proof fn lemma_terms(charge: PendingCharge)
    requires
        charge.grants(),
    ensures
        double::two_to(-30) <= duration::seconds(charge.period) <= double::two_to(65),
        double::of_int(charge.limit as nat) <= double::two_to(64),
        double::two_to(0) <= charge.capacity() <= double::two_to(64),
        double::two_to(-65) <= charge.rate() <= double::two_to(94),
{
    vstd::arithmetic::power2::lemma2_to64();
    vstd::arithmetic::power2::lemma2_to64_rest();
    let size = bucket_size(charge.max, charge.limit) as nat;
    double::lemma_of_int_bounds(size, 0);
    double::lemma_of_int_bounds(size, 64);
    double::lemma_of_int_bounds(charge.limit as nat, 0);
    double::lemma_of_int_bounds(charge.limit as nat, 64);
    duration::lemma_seconds_bounds(charge.period);
    let limit = double::of_int(charge.limit as nat);
    let secs = duration::seconds(charge.period);
    double::lemma_quotient_bounds(limit, secs, 0, 65);
    double::lemma_quotient_bounds(limit, secs, 64, -30);
}

/// `MAX` is the capacity of the bucket, and it defaults to `LIMIT`: without
/// it a charge comes to what it comes to with a `MAX` of the same size.
pub proof fn lemma_max_defaults_to_limit(
    charge: PendingCharge,
    now_ms: u64,
    stored: Option<Seq<u8>>,
)
    requires
        charge.max is None,
    ensures
        charge.verdict(now_ms, stored) == (PendingCharge {
            max: Some(charge.limit),
            ..charge
        }).verdict(now_ms, stored),
{
}

/// A bucket without state is full.
pub proof fn lemma_absent_is_full(charge: PendingCharge, now_ms: u64)
    requires
        charge.grants(),
    ensures
        charge.current(now_ms, None).tokens == charge.capacity(),
{
    lemma_terms(charge);
    bucket::lemma_refill_at_once(
        bucket::full(now_ms, charge.period, charge.capacity(), charge.rate()),
        now_ms,
        charge.period,
        charge.capacity(),
        charge.rate(),
    );
}

/// A denial without a wait is for good, and only what can never be admitted
/// is denied without one: if it is told once, it is told at all times and
/// whatever is stored, and else there is a state that admits the charge.
pub proof fn lemma_denied_for_good(charge: PendingCharge, now_ms: u64, stored: Option<Seq<u8>>)
    requires
        charge.grants(),
    ensures
        charge.verdict(now_ms, stored) == Verdict::Deny(None) <==> (forall|
            t: u64,
            s: Option<Seq<u8>>,
        |
            !(#[trigger] charge.verdict(t, s) is Admit)),
{
    if charge.price() <= charge.capacity() {
        lemma_absent_is_full(charge, now_ms);
        assert(charge.verdict(now_ms, None) is Admit);
    }
}

/// Tokens only grow while a bucket is left alone.
pub proof fn lemma_waiting_helps(
    charge: PendingCharge,
    sooner_ms: u64,
    later_ms: u64,
    stored: Option<Seq<u8>>,
)
    requires
        sooner_ms <= later_ms,
    ensures
        charge.current(sooner_ms, stored).tokens <= charge.current(later_ms, stored).tokens,
        charge.verdict(sooner_ms, stored) is Admit ==> charge.verdict(later_ms, stored) is Admit,
{
    let capacity = charge.capacity();
    let rate = charge.rate();
    let sooner = bucket::loaded(stored, sooner_ms, charge.period, capacity, rate);
    let later = bucket::loaded(stored, later_ms, charge.period, capacity, rate);
    vstd::arithmetic::power2::lemma2_to64_rest();
    double::lemma_of_int_bounds(bucket_size(charge.max, charge.limit) as nat, 64);
    if sooner == later {
        bucket::lemma_refill_grows(sooner, sooner_ms, later_ms, charge.period, capacity, rate);
    } else {
        // The later one starts full.
        assert(later == bucket::full(later_ms, charge.period, capacity, rate));
        let more = bucket::inflow(0, rate);
        double::lemma_product_at_most_infinity(
            double::quotient(double::of_int(0), double::of_int(1000)),
            rate,
        );
        if more < double::INFINITY {
            double::lemma_sum_bounds(capacity, more, 64);
        }
    }
}

/// What is admitted with more is admitted with less: a reservation that is
/// satisfiable with some lookahead is so without it.
pub proof fn lemma_less_is_admitted(
    charge: PendingCharge,
    amount: u64,
    now_ms: u64,
    stored: Option<Seq<u8>>,
)
    requires
        amount <= charge.amount,
        charge.verdict(now_ms, stored) is Admit,
    ensures
        asking(charge, amount).verdict(now_ms, stored) is Admit,
{
    double::lemma_of_int_ordered(amount as nat, charge.amount as nat);
}

/// Up to two to the power 53 tokens an admission takes exactly what it was
/// asked for, and giving it back at the same instant restores the bucket.
pub proof fn lemma_refund_restores(charge: PendingCharge, now_ms: u64, stored: Option<Seq<u8>>)
    requires
        charge.grants(),
        bucket_size(charge.max, charge.limit) <= 0x20_0000_0000_0000,
        charge.amount <= 0x20_0000_0000_0000,
        charge.verdict(now_ms, stored) is Admit,
    ensures
        charge.verdict(now_ms, stored) matches Verdict::Admit(after) ==> {
            &&& double::units(after.tokens as int) == double::units(
                charge.current(now_ms, stored).tokens as int,
            ) - charge.amount * double::one()
            &&& after.expires_at_ms > now_ms ==> charge.refunded(now_ms, bucket::encoding(after))
                == charge.current(now_ms, stored)
        },
{
    lemma_terms(charge);
    lemma_size_exact(charge);
    let before = charge.current(now_ms, stored);
    let after = charge.verdict(now_ms, stored)->Admit_0;
    double::lemma_whole_difference(before.tokens, charge.amount as nat);
    double::lemma_difference_bound(before.tokens, charge.price());
    bucket::lemma_decoding_of_encoding(after);
    if after.expires_at_ms > now_ms {
        bucket::lemma_refill_at_once(
            after,
            now_ms,
            charge.period,
            charge.capacity(),
            charge.rate(),
        );
    }
}

/// A capacity of at most two to the power 53 is an exact double.
proof fn lemma_size_exact(charge: PendingCharge)
    requires
        bucket_size(charge.max, charge.limit) <= 0x20_0000_0000_0000,
    ensures
        charge.capacity() <= double::two_to(53),
        double::units(charge.capacity() as int) == bucket_size(charge.max, charge.limit)
            * double::one(),
{
    let size = bucket_size(charge.max, charge.limit) as nat;
    vstd::arithmetic::power2::lemma2_to64_rest();
    double::lemma_of_int_bounds(size, 53);
    double::lemma_of_int_exact(size);
}

/// The amounts of charges, added up.
pub open spec fn total(amounts: Seq<u64>) -> nat
    decreases amounts.len(),
{
    if amounts.len() == 0 {
        0
    } else {
        total(amounts.drop_last()) + amounts.last() as nat
    }
}

/// The charge with another amount.
pub open spec fn asking(charge: PendingCharge, amount: u64) -> PendingCharge {
    PendingCharge { amount, ..charge }
}

/// What a bucket holds after charges of the given amounts were all admitted
/// at one instant, one after the other, or nothing if one was denied.
pub open spec fn after_all(
    charge: PendingCharge,
    amounts: Seq<u64>,
    now_ms: u64,
    stored: Option<Seq<u8>>,
) -> Option<Option<Seq<u8>>>
    decreases amounts.len(),
{
    if amounts.len() == 0 {
        Some(stored)
    } else {
        match after_all(charge, amounts.drop_last(), now_ms, stored) {
            Some(value) => match asking(charge, amounts.last()).verdict(now_ms, value) {
                Verdict::Admit(bucket) => Some(Some(bucket::encoding(bucket))),
                Verdict::Deny(_) => None,
            },
            None => None,
        }
    }
}

/// No over-admission: what a bucket of at most two to the power 53 tokens
/// admits at one instant adds up to no more than it held, and so to no more
/// than its capacity.
pub proof fn lemma_no_over_admission(
    charge: PendingCharge,
    amounts: Seq<u64>,
    now_ms: u64,
    stored: Option<Seq<u8>>,
)
    requires
        charge.grants(),
        bucket_size(charge.max, charge.limit) <= 0x20_0000_0000_0000,
        forall|i: int| 0 <= i < amounts.len() ==> #[trigger] amounts[i] <= 0x20_0000_0000_0000,
        after_all(charge, amounts, now_ms, stored) is Some,
        bucket::expiry(now_ms, charge.period, charge.capacity(), charge.rate()) > now_ms,
    ensures
        total(amounts) * double::one() + double::units(
            charge.current(now_ms, after_all(charge, amounts, now_ms, stored)->0).tokens as int,
        ) == double::units(charge.current(now_ms, stored).tokens as int),
        total(amounts) <= bucket_size(charge.max, charge.limit),
    decreases amounts.len(),
{
    lemma_terms(charge);
    lemma_size_exact(charge);
    let held = charge.current(now_ms, stored).tokens;
    double::lemma_units_ordered(held as int, charge.capacity() as int);
    let one = double::one();
    if amounts.len() > 0 {
        let front = amounts.drop_last();
        lemma_no_over_admission(charge, front, now_ms, stored);
        let value = after_all(charge, front, now_ms, stored)->0;
        let last = asking(charge, amounts.last());
        assert(last.amount == amounts[amounts.len() - 1]);
        lemma_refund_restores(last, now_ms, value);
        let after = last.verdict(now_ms, value)->Admit_0;
        bucket::lemma_decoding_of_encoding(after);
        lemma_terms(last);
        double::lemma_difference_bound(last.current(now_ms, value).tokens, last.price());
        bucket::lemma_refill_at_once(
            after,
            now_ms,
            charge.period,
            charge.capacity(),
            charge.rate(),
        );
        let sum = total(front);
        let x = amounts.last() as nat;
        assert((sum + x) * one == sum * one + x * one) by (nonlinear_arith);
    }
    let sum = total(amounts);
    let size = bucket_size(charge.max, charge.limit);
    assert(0 * one == 0);
    vstd::arithmetic::power2::lemma_pow2_pos(1074);
    assert(sum <= size) by (nonlinear_arith)
        requires
            sum * one <= size * one,
            one > 0,
    ;
}

} // verus!
