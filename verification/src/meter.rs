//! Metering the rows that a statement scans, with reservations ahead.
use crate::admission;
use crate::charge::ChargeOutcome;
use crate::error::Error;
use crate::ratelimit;
use crate::ratelimit::PendingCharge;
use vstd::prelude::*;

verus! {

/// Upper bound on the reservation lookahead, so an abandoned statement can
/// strand at most this many tokens per policy until the refund lands.
pub const METER_MAX_LOOKAHEAD: u64 = 4096;

/// Reservation-ahead meter for rows scanned by one statement.
///
/// Charges are reserved from the buckets in growing chunks ahead of the scan
/// cursor, so that a bucket transaction is needed only when the reservation
/// runs dry. A query that exhausts its budget is denied mid-flight, the work
/// it already performed stays paid, and unused reservation is refunded at
/// settlement.
#[derive(Debug)]
pub struct ScanRatelimitMeter {
    /// The statement's table-level policies; `amount` is unused here.
    pub policies: Vec<PendingCharge>,
    /// Lookahead is capped so it can never turn a satisfiable reservation
    /// into a capacity-exceeding (permanently denied) one.
    pub lookahead_cap: u64,
    pub consumed: u64,
    pub reserved: u64,
    pub lookahead: u64,
}

/// Tokens to reserve on every policy.
#[derive(Clone, Copy, Debug, PartialEq, Eq, Structural)]
pub struct Reservation {
    /// What the rows that were scanned lack.
    pub needed: u64,
    /// What is reserved beyond that.
    pub lookahead: u64,
    /// Whether the same need was denied a moment ago with some lookahead.
    pub second_try: bool,
}

/// What follows the answer to a reservation.
#[derive(Debug, PartialEq, Eq)]
pub enum ReserveOutcome {
    /// The meter looks again whether anything is lacking.
    Reserved,
    /// The same need is asked for again, without lookahead.
    Retry(Reservation),
    /// The statement is denied.
    Denied(Error),
}

/// The size of the smallest bucket of some policies, or one where there is
/// none.
pub open spec fn smallest_size(policies: Seq<PendingCharge>) -> u64
    decreases policies.len(),
{
    if policies.len() == 0 {
        1
    } else {
        let last = ratelimit::bucket_size(policies.last().max, policies.last().limit);
        let front = smallest_size(policies.drop_last());
        if policies.len() == 1 || last < front {
            last
        } else {
            front
        }
    }
}

/// A quarter of the smallest bucket, from one to the upper bound.
pub open spec fn cap_for(policies: Seq<PendingCharge>) -> u64 {
    let quarter = smallest_size(policies) / 4;
    if quarter < 1 {
        1
    } else if quarter > METER_MAX_LOOKAHEAD {
        METER_MAX_LOOKAHEAD
    } else {
        quarter
    }
}

/// The lookahead after one of `lookahead` tokens was granted: twice as much,
/// from 32 on, up to the cap.
pub open spec fn grown(lookahead: u64, cap: u64) -> u64 {
    let base = if lookahead < 16 {
        16
    } else {
        lookahead
    };
    if base * 2 < cap {
        (base * 2) as u64
    } else {
        cap
    }
}

/// The policies, each asked for the same amount.
pub open spec fn asked(policies: Seq<PendingCharge>, amount: u64) -> Seq<PendingCharge> {
    Seq::new(policies.len(), |i: int| ratelimit::asking(policies[i], amount))
}

/// What follows the answer to a reservation: one that was denied with some
/// lookahead is asked for again without it.
pub open spec fn reaction(ask: Reservation, outcome: ChargeOutcome) -> ReserveOutcome {
    match outcome {
        ChargeOutcome::Admitted => ReserveOutcome::Reserved,
        ChargeOutcome::Denied { scope, retry_after } => if ask.lookahead > 0 {
            ReserveOutcome::Retry(
                Reservation { needed: ask.needed, lookahead: 0, second_try: true },
            )
        } else {
            ReserveOutcome::Denied(Error::RateLimitExceeded { scope, retry_after })
        },
    }
}

impl ScanRatelimitMeter {
    /// What holds of a meter at all times: no more than the cap is ever
    /// reserved ahead of the rows.
    pub open spec fn valid(self) -> bool {
        &&& 1 <= self.lookahead_cap <= METER_MAX_LOOKAHEAD
        &&& self.lookahead <= self.lookahead_cap
        &&& self.reserved <= self.consumed + self.lookahead_cap
    }

    /// A reservation that the meter asks for, or asked for before more rows
    /// were scanned.
    pub open spec fn asks(self, ask: Reservation) -> bool {
        &&& 0 < ask.needed
        &&& self.reserved + ask.needed <= self.consumed
        &&& ask.lookahead <= self.lookahead_cap
        &&& self.reserved + ask.needed + ask.lookahead <= u64::MAX
        &&& ask.second_try ==> ask.lookahead == 0
    }

    /// The lookahead of the next reservation: as much as the meter can count
    /// beyond the rows.
    pub open spec fn next_lookahead(self) -> u64 {
        if self.consumed + self.lookahead <= u64::MAX {
            self.lookahead
        } else {
            (u64::MAX - self.consumed) as u64
        }
    }

    /// Whether the reservation covers the next rows, so that the scan goes on
    /// at once.
    pub open spec fn covers(self, rows: u64) -> bool {
        self.policies@.len() == 0 || rows == 0 || self.consumed + rows <= self.reserved
    }

    /// What has to be reserved before the scan can go on, if anything.
    pub open spec fn next_ask(self) -> Option<Reservation> {
        if self.consumed <= self.reserved {
            None
        } else {
            Some(
                Reservation {
                    needed: (self.consumed - self.reserved) as u64,
                    lookahead: self.next_lookahead(),
                    second_try: false,
                },
            )
        }
    }

    /// The part of the reservation that no row has used.
    pub open spec fn unused(self) -> u64 {
        if self.reserved <= self.consumed {
            0
        } else {
            (self.reserved - self.consumed) as u64
        }
    }

    /// The meter after more rows were scanned. Without policies nothing is
    /// counted.
    pub open spec fn after_rows(self, rows: u64) -> Self {
        if self.policies@.len() == 0 || rows == 0 {
            self
        } else {
            ScanRatelimitMeter { consumed: (self.consumed + rows) as u64, ..self }
        }
    }

    /// The meter after the answer to a reservation.
    pub open spec fn after_answer(self, ask: Reservation, outcome: ChargeOutcome) -> Self {
        match outcome {
            ChargeOutcome::Admitted => ScanRatelimitMeter {
                reserved: (self.reserved + ask.needed + ask.lookahead) as u64,
                lookahead: if ask.second_try {
                    0
                } else {
                    grown(ask.lookahead, self.lookahead_cap)
                },
                ..self
            },
            ChargeOutcome::Denied { .. } => self,
        }
    }

    /// A meter for the policies of one statement.
    pub fn new(policies: Vec<PendingCharge>) -> (meter: Self)
        ensures
            meter.valid(),
            meter.policies == policies,
            meter.lookahead_cap == cap_for(policies@),
            meter.consumed == 0,
            meter.reserved == 0,
            meter.lookahead == 0,
    {
        let mut smallest: u64 = 1;
        let mut i: usize = 0;
        while i < policies.len()
            invariant
                i <= policies@.len(),
                smallest == smallest_size(policies@.subrange(0, i as int)),
            decreases policies@.len() - i,
        {
            assert(policies@.subrange(0, i + 1).drop_last() =~= policies@.subrange(0, i as int));
            let size: u64 = match policies[i].max {
                Some(max) => max,
                None => policies[i].limit,
            };
            let size: u64 = if size < 1 {
                1
            } else {
                size
            };
            if i == 0 || size < smallest {
                smallest = size;
            }
            i = i + 1;
        }
        assert(policies@.subrange(0, i as int) =~= policies@);
        let quarter: u64 = smallest / 4;
        let lookahead_cap: u64 = if quarter < 1 {
            1
        } else if quarter > METER_MAX_LOOKAHEAD {
            METER_MAX_LOOKAHEAD
        } else {
            quarter
        };
        ScanRatelimitMeter { policies, lookahead_cap, consumed: 0, reserved: 0, lookahead: 0 }
    }

    /// Meters `rows` scanned rows. Tells whether the reservation covers them,
    /// so that nothing has to be reserved. Without policies nothing is
    /// metered.
    pub fn consume(&mut self, rows: u64) -> (covered: bool)
        requires
            old(self).valid(),
            old(self).policies@.len() > 0 ==> old(self).consumed + rows <= u64::MAX,
        ensures
            final(self).valid(),
            *final(self) == old(self).after_rows(rows),
            covered == old(self).covers(rows),
    {
        if self.policies.len() == 0 || rows == 0 {
            return true;
        }
        self.consumed = self.consumed + rows;
        self.consumed <= self.reserved
    }

    /// What has to be reserved before the scan can go on, if anything.
    pub fn next_reservation(&self) -> (ask: Option<Reservation>)
        requires
            self.valid(),
        ensures
            ask == self.next_ask(),
            ask matches Some(ask) ==> self.asks(ask),
    {
        if self.consumed <= self.reserved {
            return None;
        }
        let lookahead: u64 = if self.lookahead <= u64::MAX - self.consumed {
            self.lookahead
        } else {
            u64::MAX - self.consumed
        };
        Some(
            Reservation { needed: self.consumed - self.reserved, lookahead, second_try: false },
        )
    }

    /// The batch of charges that makes a reservation.
    pub fn reserve(&self, ask: &Reservation) -> (batch: Vec<PendingCharge>)
        requires
            self.valid(),
            self.asks(*ask),
        ensures
            batch@ == asked(self.policies@, (ask.needed + ask.lookahead) as u64),
    {
        self.batch(ask.needed + ask.lookahead)
    }

    /// The policies, each asked for an amount.
    fn batch(&self, amount: u64) -> (batch: Vec<PendingCharge>)
        ensures
            batch@ == asked(self.policies@, amount),
    {
        let mut batch: Vec<PendingCharge> = Vec::new();
        let mut i: usize = 0;
        while i < self.policies.len()
            invariant
                i <= self.policies@.len(),
                batch@ == asked(self.policies@.subrange(0, i as int), amount),
            decreases self.policies@.len() - i,
        {
            let mut charge = self.policies[i].clone();
            charge.amount = amount;
            batch.push(charge);
            assert(batch@ =~= asked(self.policies@.subrange(0, i + 1), amount));
            i = i + 1;
        }
        assert(self.policies@.subrange(0, i as int) =~= self.policies@);
        batch
    }

    /// Takes the answer to a reservation.
    pub fn answered(&mut self, ask: Reservation, outcome: ChargeOutcome) -> (next: ReserveOutcome)
        requires
            old(self).valid(),
            old(self).asks(ask),
        ensures
            final(self).valid(),
            *final(self) == old(self).after_answer(ask, outcome),
            next == reaction(ask, outcome),
            next matches ReserveOutcome::Retry(again) ==> old(self).asks(again),
    {
        match outcome {
            ChargeOutcome::Admitted => {
                self.reserved = self.reserved + (ask.needed + ask.lookahead);
                if ask.second_try {
                    self.lookahead = 0;
                } else {
                    // Grow the lookahead so long scans amortise their
                    // reservation transactions.
                    let base: u64 = if ask.lookahead < 16 {
                        16
                    } else {
                        ask.lookahead
                    };
                    self.lookahead = if base * 2 < self.lookahead_cap {
                        base * 2
                    } else {
                        self.lookahead_cap
                    };
                }
                ReserveOutcome::Reserved
            },
            ChargeOutcome::Denied { scope, retry_after } => {
                if ask.lookahead > 0 {
                    // The lookahead may have pushed an otherwise satisfiable
                    // reservation over the edge; ask for exactly what the
                    // scan needs.
                    ReserveOutcome::Retry(
                        Reservation { needed: ask.needed, lookahead: 0, second_try: true },
                    )
                } else {
                    ReserveOutcome::Denied(Error::RateLimitExceeded { scope, retry_after })
                }
            },
        }
    }

    /// The unused part of the reservation, to be refunded when the statement
    /// finishes, on every outcome (success, failure, timeout).
    pub fn settle(&self) -> (refunds: Option<Vec<PendingCharge>>)
        ensures
            if self.unused() == 0 {
                refunds is None
            } else {
                refunds matches Some(refunds) && refunds@ == asked(self.policies@, self.unused())
            },
    {
        if self.reserved <= self.consumed {
            return None;
        }
        Some(self.batch(self.reserved - self.consumed))
    }
}

/// An abandoned statement strands no more tokens on a policy than the upper
/// bound on the lookahead.
pub proof fn lemma_stranded_is_bounded(meter: ScanRatelimitMeter)
    requires
        meter.valid(),
    ensures
        meter.reserved - meter.consumed <= METER_MAX_LOOKAHEAD,
{
}

/// The lookahead alone is never more than a bucket can hold.
pub proof fn lemma_cap_fits_buckets(policies: Seq<PendingCharge>, i: int)
    requires
        0 <= i < policies.len(),
    ensures
        cap_for(policies) <= ratelimit::bucket_size(policies[i].max, policies[i].limit),
{
    lemma_smallest_size(policies, i);
}

proof fn lemma_smallest_size(policies: Seq<PendingCharge>, i: int)
    requires
        0 <= i < policies.len(),
    ensures
        smallest_size(policies) <= ratelimit::bucket_size(policies[i].max, policies[i].limit),
    decreases policies.len(),
{
    if i < policies.len() - 1 {
        lemma_smallest_size(policies.drop_last(), i);
    }
}

/// The cap on the lookahead is the largest number up to 4096 of which every
/// bucket can hold four times as many, and at least one. Without policies it is
/// one.
pub proof fn lemma_cap_is_a_quarter(policies: Seq<PendingCharge>, i: int)
    requires
        policies.len() == 0 || 0 <= i < policies.len(),
    ensures
        1 <= cap_for(policies) <= 4096,
        policies.len() == 0 ==> cap_for(policies) == 1,
        policies.len() > 0 && cap_for(policies) > 1 ==> 4 * cap_for(policies)
            <= admission::full_size(policies[i]),
        policies.len() > 0 && cap_for(policies) < 4096 ==> exists|j: int|
            0 <= j < policies.len() && admission::full_size(#[trigger] policies[j]) < 4 * (cap_for(
                policies,
            ) + 1),
{
    if policies.len() > 0 {
        lemma_smallest_size(policies, i);
        assert(ratelimit::bucket_size(policies[i].max, policies[i].limit) == admission::full_size(
            policies[i],
        ));
        let j = lemma_smallest_is_some(policies);
        assert(admission::full_size(policies[j]) == smallest_size(policies));
    }
}

/// The smallest size is that of some bucket.
proof fn lemma_smallest_is_some(policies: Seq<PendingCharge>) -> (j: int)
    requires
        policies.len() > 0,
    ensures
        0 <= j < policies.len(),
        admission::full_size(policies[j]) == smallest_size(policies),
    decreases policies.len(),
{
    let n = policies.len() - 1;
    let last = ratelimit::bucket_size(policies[n].max, policies[n].limit);
    if n == 0 || last < smallest_size(policies.drop_last()) {
        n
    } else {
        let j = lemma_smallest_is_some(policies.drop_last());
        assert(policies.drop_last()[j] == policies[j]);
        j
    }
}

/// The lookahead doubles with each reservation that is granted, from 32 on, up to
/// the cap.
pub proof fn lemma_lookahead_doubles(lookahead: u64, cap: u64)
    requires
        lookahead <= cap <= 4096,
    ensures
        grown(lookahead, cap) <= cap,
        grown(lookahead, cap) == cap || grown(lookahead, cap) == 2 * lookahead || grown(
            lookahead,
            cap,
        ) == 32,
        grown(lookahead, cap) < cap ==> grown(lookahead, cap) >= 32 && grown(lookahead, cap) >= 2
            * lookahead,
        lookahead <= 16 && cap >= 32 ==> grown(lookahead, cap) == 32,
        16 < lookahead && 2 * lookahead <= cap ==> grown(lookahead, cap) == 2 * lookahead,
{
}

/// A scan goes on exactly where what was reserved covers its rows. What is asked
/// for is what the rows lack and the lookahead. Once that is granted the rows are
/// covered with all of the lookahead to spare, and nothing else has changed. A
/// denial changes nothing.
pub proof fn lemma_reservation_covers(meter: ScanRatelimitMeter, denied: ChargeOutcome)
    requires
        meter.valid(),
        denied is Denied,
    ensures
        match meter.next_ask() {
            None => meter.consumed <= meter.reserved,
            Some(ask) => {
                let after = meter.after_answer(ask, ChargeOutcome::Admitted);
                &&& meter.reserved < meter.consumed
                &&& meter.reserved + ask.needed == meter.consumed
                &&& meter.consumed + meter.lookahead <= u64::MAX ==> ask.lookahead
                    == meter.lookahead
                &&& meter.consumed + meter.lookahead > u64::MAX ==> meter.consumed + ask.lookahead
                    == u64::MAX
                &&& !ask.second_try
                &&& after.reserved == meter.consumed + ask.lookahead
                &&& after.next_ask() is None
                &&& after.consumed == meter.consumed
                &&& after.policies == meter.policies
                &&& after.lookahead_cap == meter.lookahead_cap
                &&& meter.after_answer(ask, denied) == meter
            },
        },
{
}

/// A denial with some lookahead is followed by one more try for what the rows
/// lack and no more. A denial without lookahead is the end, and is told as it
/// came. After a second try that is granted there is no lookahead.
pub proof fn lemma_denial_is_tried_once_more(
    meter: ScanRatelimitMeter,
    ask: Reservation,
    scope: String,
    retry_after: Option<crate::duration::Duration>,
)
    requires
        meter.asks(ask),
    ensures
        reaction(ask, ChargeOutcome::Admitted) is Reserved,
        match reaction(ask, ChargeOutcome::Denied { scope, retry_after }) {
            ReserveOutcome::Retry(again) => {
                &&& ask.lookahead > 0
                &&& again.needed == ask.needed
                &&& again.lookahead == 0
                &&& again.second_try
                &&& !(reaction(again, ChargeOutcome::Denied { scope, retry_after }) is Retry)
                &&& meter.after_answer(again, ChargeOutcome::Admitted).reserved == meter.reserved
                    + ask.needed
                &&& meter.after_answer(again, ChargeOutcome::Admitted).lookahead == 0
            },
            ReserveOutcome::Denied(err) => {
                &&& ask.lookahead == 0
                &&& err == (Error::RateLimitExceeded { scope, retry_after })
            },
            ReserveOutcome::Reserved => false,
        },
{
}

/// What is given back is what was reserved and not used: with it the reservation
/// comes to the rows that were scanned.
pub proof fn lemma_unused_is_the_rest(meter: ScanRatelimitMeter)
    ensures
        meter.consumed <= meter.reserved ==> meter.consumed + meter.unused() == meter.reserved,
        meter.reserved < meter.consumed ==> meter.unused() == 0,
        meter.valid() ==> meter.unused() <= 4096,
{
}

/// Every policy is asked for the amount, and for nothing else: under its own
/// bucket, scope, limit, period and burst.
pub proof fn lemma_every_policy_is_asked(policies: Seq<PendingCharge>, amount: u64, i: int)
    requires
        0 <= i < policies.len(),
    ensures
        asked(policies, amount).len() == policies.len(),
        asked(policies, amount)[i].amount == amount,
        asked(policies, amount)[i].key == policies[i].key,
        asked(policies, amount)[i].scope == policies[i].scope,
        asked(policies, amount)[i].limit == policies[i].limit,
        asked(policies, amount)[i].period == policies[i].period,
        asked(policies, amount)[i].max == policies[i].max,
{
}

/// Rows are counted one for one, however they come, and without policies not at
/// all.
pub proof fn lemma_rows_add_up(meter: ScanRatelimitMeter, a: u64, b: u64)
    requires
        meter.consumed + a + b <= u64::MAX,
    ensures
        meter.policies@.len() > 0 ==> meter.after_rows(a).consumed == meter.consumed + a,
        meter.policies@.len() == 0 ==> meter.after_rows(a) == meter,
        meter.after_rows(a).after_rows(b) == meter.after_rows((a + b) as u64),
        meter.after_rows(a).reserved == meter.reserved,
        meter.after_rows(a).lookahead == meter.lookahead,
        meter.after_rows(a).lookahead_cap == meter.lookahead_cap,
        meter.after_rows(a).policies == meter.policies,
{
}

/// A scan goes on at once exactly where there are no policies, there are no rows,
/// or nothing has to be reserved for them.
pub proof fn lemma_covered_rows_ask_for_nothing(meter: ScanRatelimitMeter, rows: u64)
    requires
        meter.consumed + rows <= u64::MAX,
    ensures
        meter.policies@.len() == 0 ==> meter.covers(rows),
        rows == 0 ==> meter.covers(rows),
        meter.policies@.len() > 0 && rows > 0 ==> (meter.covers(rows) <==> meter.after_rows(
            rows,
        ).next_ask() is None),
{
}

} // verus!
