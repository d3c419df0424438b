//! Laws that span charges, refunds and the meter.
//!
//! Nothing here runs: these are the promises that the parts keep together.
use crate::bucket;
use crate::bucket::StoredBucket;
use crate::charge;
use crate::charge::Settlement;
use crate::double;
use crate::meter;
use crate::ratelimit;
use crate::ratelimit::{PendingCharge, Verdict};
use crate::refund;
use vstd::prelude::*;

verus! {

/// Where the bucket of a charge is stored.
pub open spec fn place(charge: PendingCharge) -> Seq<u8> {
    bucket::stored_at(charge.key)
}

/// No two charges are on the same bucket.
pub open spec fn distinct(charges: Seq<PendingCharge>) -> bool {
    forall|i: int, j: int|
        0 <= i < j < charges.len() ==> (#[trigger] charges[i]).key != (#[trigger] charges[j]).key
}

/// What an admitted charge leaves stored.
pub open spec fn charged(charge: PendingCharge, now_ms: u64, stored: Option<Seq<u8>>) -> Option<
    Seq<u8>,
> {
    if charge.amount == 0 {
        stored
    } else {
        Some(bucket::encoding(charge.verdict(now_ms, stored)->Admit_0))
    }
}

/// What a refund leaves stored.
pub open spec fn returned(charge: PendingCharge, now_ms: u64, stored: Option<Seq<u8>>) -> Option<
    Seq<u8>,
> {
    match stored {
        Some(s) => if refund::refundable(charge) {
            Some(bucket::encoding(charge.refunded(now_ms, s)))
        } else {
            stored
        },
        None => stored,
    }
}

proof fn lemma_places_differ(charges: Seq<PendingCharge>, i: int, j: int)
    requires
        distinct(charges),
        0 <= i < charges.len(),
        0 <= j < charges.len(),
        i != j,
    ensures
        place(charges[i]) != place(charges[j]),
{
    if place(charges[i]) == place(charges[j]) {
        bucket::lemma_stored_at_injective(charges[i].key, charges[j].key);
        if i < j {
            assert(charges[i].key != charges[j].key);
        } else {
            assert(charges[j].key != charges[i].key);
        }
    }
}

/// An admitted batch over different buckets leaves in each of them what its
/// charge leaves, and leaves every other one alone.
pub proof fn lemma_settled_each(
    store: Map<Seq<u8>, Seq<u8>>,
    charges: Seq<PendingCharge>,
    at: int,
    now_ms: u64,
    after: Map<Seq<u8>, Seq<u8>>,
)
    requires
        distinct(charges),
        0 <= at <= charges.len(),
        charge::settlement(store, charges, at, now_ms) == Settlement::Admitted(after),
    ensures
        forall|i: int|
            at <= i < charges.len() ==> {
                &&& #[trigger] charge::lookup(after, place(charges[i])) == charged(
                    charges[i],
                    now_ms,
                    charge::lookup(store, place(charges[i])),
                )
                &&& charge::admitted_alone(store, charges[i], now_ms)
            },
        forall|key: Seq<u8>|
            (forall|i: int| at <= i < charges.len() ==> key != place(#[trigger] charges[i]))
                ==> #[trigger] charge::lookup(after, key) == charge::lookup(store, key),
    decreases charges.len() - at,
{
    if at < charges.len() {
        let c = charges[at];
        let key = place(c);
        let next = if c.amount == 0 {
            store
        } else {
            store.insert(key, bucket::encoding(c.verdict(now_ms, charge::lookup(store, key))->Admit_0))
        };
        lemma_settled_each(next, charges, at + 1, now_ms, after);
        assert forall|i: int| at + 1 <= i < charges.len() implies key != place(
            #[trigger] charges[i],
        ) by {
            lemma_places_differ(charges, at, i);
        }
        assert(charge::lookup(after, key) == charge::lookup(next, key));
        assert forall|i: int| at <= i < charges.len() implies {
            &&& #[trigger] charge::lookup(after, place(charges[i])) == charged(
                charges[i],
                now_ms,
                charge::lookup(store, place(charges[i])),
            )
            &&& charge::admitted_alone(store, charges[i], now_ms)
        } by {
            if i > at {
                assert(key != place(charges[i]));
                assert(charge::lookup(next, place(charges[i])) == charge::lookup(
                    store,
                    place(charges[i]),
                ));
            }
        }
        assert forall|other: Seq<u8>|
            (forall|i: int| at <= i < charges.len() ==> other != place(#[trigger] charges[i]))
            implies #[trigger] charge::lookup(after, other) == charge::lookup(store, other) by {
            assert(other != place(charges[at]));
            assert(forall|i: int|
                at + 1 <= i < charges.len() ==> other != place(#[trigger] charges[i]));
            assert(charge::lookup(after, other) == charge::lookup(next, other));
        }
    }
}

/// A refund over different buckets leaves in each of them what its charge
/// leaves.
pub proof fn lemma_given_back_each(
    store: Map<Seq<u8>, Seq<u8>>,
    charges: Seq<PendingCharge>,
    at: int,
    now_ms: u64,
)
    requires
        distinct(charges),
        0 <= at <= charges.len(),
    ensures
        forall|i: int|
            at <= i < charges.len() ==> #[trigger] charge::lookup(
                refund::given_back(store, charges, at, now_ms),
                place(charges[i]),
            ) == returned(charges[i], now_ms, charge::lookup(store, place(charges[i]))),
        forall|key: Seq<u8>|
            (forall|i: int| at <= i < charges.len() ==> key != place(#[trigger] charges[i]))
                ==> #[trigger] charge::lookup(
                refund::given_back(store, charges, at, now_ms),
                key,
            ) == charge::lookup(store, key),
    decreases charges.len() - at,
{
    if at < charges.len() {
        let c = charges[at];
        let key = place(c);
        let after = refund::given_back(store, charges, at, now_ms);
        let next = if refund::refundable(c) && store.dom().contains(key) {
            store.insert(key, bucket::encoding(c.refunded(now_ms, store[key])))
        } else {
            store
        };
        lemma_given_back_each(next, charges, at + 1, now_ms);
        assert forall|i: int| at + 1 <= i < charges.len() implies key != place(
            #[trigger] charges[i],
        ) by {
            lemma_places_differ(charges, at, i);
        }
        assert(charge::lookup(after, key) == charge::lookup(next, key));
        assert forall|i: int| at <= i < charges.len() implies #[trigger] charge::lookup(
            after,
            place(charges[i]),
        ) == returned(charges[i], now_ms, charge::lookup(store, place(charges[i]))) by {
            if i > at {
                assert(key != place(charges[i]));
                assert(charge::lookup(next, place(charges[i])) == charge::lookup(
                    store,
                    place(charges[i]),
                ));
            }
        }
        assert forall|other: Seq<u8>|
            (forall|i: int| at <= i < charges.len() ==> other != place(#[trigger] charges[i]))
            implies #[trigger] charge::lookup(after, other) == charge::lookup(store, other) by {
            assert(other != place(charges[at]));
            assert(forall|i: int|
                at + 1 <= i < charges.len() ==> other != place(#[trigger] charges[i]));
            assert(charge::lookup(after, other) == charge::lookup(next, other));
        }
    }
}

/// The amounts and the buckets of a policy are small enough to be counted
/// exactly, and its state outlives the instant it is written at.
pub open spec fn countable(charge: PendingCharge, now_ms: u64) -> bool {
    &&& ratelimit::bucket_size(charge.max, charge.limit) <= 0x20_0000_0000_0000
    &&& charge.amount <= 0x20_0000_0000_0000
    &&& bucket::expiry(now_ms, charge.period, charge.capacity(), charge.rate()) > now_ms
}

/// A refund undoes a charge: giving an admitted batch over different buckets
/// back at the same instant leaves each of them with the tokens that it had,
/// and leaves every other one alone.
pub proof fn lemma_refund_undoes_batch(
    store: Map<Seq<u8>, Seq<u8>>,
    charges: Seq<PendingCharge>,
    now_ms: u64,
    after: Map<Seq<u8>, Seq<u8>>,
    i: int,
)
    requires
        distinct(charges),
        charge::settlement(store, charges, 0, now_ms) == Settlement::Admitted(after),
        0 <= i < charges.len(),
        countable(charges[i], now_ms),
    ensures
        charge::lookup(refund::given_back(after, charges, 0, now_ms), place(charges[i]))
            == if charges[i].amount == 0 {
            charge::lookup(store, place(charges[i]))
        } else {
            Some(
                bucket::encoding(
                    charges[i].current(now_ms, charge::lookup(store, place(charges[i]))),
                ),
            )
        },
        forall|key: Seq<u8>|
            (forall|j: int| 0 <= j < charges.len() ==> key != place(#[trigger] charges[j]))
                ==> #[trigger] charge::lookup(
                refund::given_back(after, charges, 0, now_ms),
                key,
            ) == charge::lookup(store, key),
{
    lemma_settled_each(store, charges, 0, now_ms, after);
    lemma_given_back_each(after, charges, 0, now_ms);
    let c = charges[i];
    let stored = charge::lookup(store, place(c));
    assert(charge::lookup(after, place(charges[i])) == charged(c, now_ms, stored));
    assert(charge::lookup(
        refund::given_back(after, charges, 0, now_ms),
        place(charges[i]),
    ) == returned(c, now_ms, charged(c, now_ms, stored)));
    if c.amount > 0 {
        ratelimit::lemma_refund_restores(c, now_ms, stored);
    }
}

/// A bucket that holds no fewer tokens than another and is like it otherwise.
pub open spec fn richer(a: Option<Seq<u8>>, b: Option<Seq<u8>>) -> bool {
    a == b || match (a, b) {
        (Some(a), Some(b)) => match (bucket::decoding(a), bucket::decoding(b)) {
            (Some(x), Some(y)) => {
                &&& x.last_ms == y.last_ms
                &&& x.expires_at_ms == y.expires_at_ms
                &&& bucket::magnitude(y.tokens) <= bucket::magnitude(x.tokens)
            },
            _ => false,
        },
        _ => false,
    }
}

/// On a richer bucket a smaller charge is admitted where a larger one is on
/// the poorer, and leaves it richer.
proof fn lemma_richer_admits(
    charge: PendingCharge,
    amount: u64,
    now_ms: u64,
    a: Option<Seq<u8>>,
    b: Option<Seq<u8>>,
)
    requires
        charge.grants(),
        amount <= charge.amount,
        richer(a, b),
        charge.verdict(now_ms, b) is Admit,
    ensures
        ratelimit::asking(charge, amount).verdict(now_ms, a) is Admit,
        richer(
            Some(
                bucket::encoding(ratelimit::asking(charge, amount).verdict(now_ms, a)->Admit_0),
            ),
            Some(bucket::encoding(charge.verdict(now_ms, b)->Admit_0)),
        ),
{
    let small = ratelimit::asking(charge, amount);
    let capacity = charge.capacity();
    let rate = charge.rate();
    ratelimit::lemma_terms(charge);
    double::lemma_of_int_ordered(amount as nat, charge.amount as nat);
    let x = bucket::loaded(a, now_ms, charge.period, capacity, rate);
    let y = bucket::loaded(b, now_ms, charge.period, capacity, rate);
    let more = bucket::inflow(bucket::elapsed(x.last_ms, now_ms), rate);
    double::lemma_sum_ordered(bucket::magnitude(y.tokens), bucket::magnitude(x.tokens), more);
    let rich = small.current(now_ms, a);
    let poor = charge.current(now_ms, b);
    assert(poor.tokens <= rich.tokens);
    double::lemma_difference_ordered(poor.tokens, charge.price(), rich.tokens, small.price());
    double::lemma_difference_bound(rich.tokens, small.price());
    double::lemma_difference_bound(poor.tokens, charge.price());
    bucket::lemma_decoding_of_encoding(small.verdict(now_ms, a)->Admit_0);
    bucket::lemma_decoding_of_encoding(charge.verdict(now_ms, b)->Admit_0);
}

proof fn lemma_lookahead_is_spare_from(
    rich: Map<Seq<u8>, Seq<u8>>,
    poor: Map<Seq<u8>, Seq<u8>>,
    policies: Seq<PendingCharge>,
    at: int,
    small: u64,
    large: u64,
    now_ms: u64,
)
    requires
        0 < small <= large,
        0 <= at <= policies.len(),
        forall|key: Seq<u8>|
            richer(#[trigger] charge::lookup(rich, key), charge::lookup(poor, key)),
        charge::settlement(poor, meter::asked(policies, large), at, now_ms) is Admitted,
    ensures
        charge::settlement(rich, meter::asked(policies, small), at, now_ms) is Admitted,
    decreases policies.len() - at,
{
    if at < policies.len() {
        let c = ratelimit::asking(policies[at], large);
        let d = ratelimit::asking(policies[at], small);
        assert(meter::asked(policies, large)[at] == c);
        assert(meter::asked(policies, small)[at] == d);
        let key = place(c);
        assert(richer(charge::lookup(rich, key), charge::lookup(poor, key)));
        lemma_richer_admits(
            c,
            small,
            now_ms,
            charge::lookup(rich, key),
            charge::lookup(poor, key),
        );
        assert(ratelimit::asking(c, small) == d);
        let rich2 = rich.insert(
            key,
            bucket::encoding(d.verdict(now_ms, charge::lookup(rich, key))->Admit_0),
        );
        let poor2 = poor.insert(
            key,
            bucket::encoding(c.verdict(now_ms, charge::lookup(poor, key))->Admit_0),
        );
        assert forall|k: Seq<u8>| richer(
            #[trigger] charge::lookup(rich2, k),
            charge::lookup(poor2, k),
        ) by {
            if k != key {
                assert(charge::lookup(rich2, k) == charge::lookup(rich, k));
                assert(charge::lookup(poor2, k) == charge::lookup(poor, k));
            }
        }
        lemma_lookahead_is_spare_from(rich2, poor2, policies, at + 1, small, large, now_ms);
    }
}

/// What is admitted with some lookahead is admitted without it, on all the
/// policies of a statement together.
pub proof fn lemma_lookahead_is_spare(
    store: Map<Seq<u8>, Seq<u8>>,
    policies: Seq<PendingCharge>,
    needed: u64,
    lookahead: u64,
    now_ms: u64,
)
    requires
        0 < needed,
        needed + lookahead <= u64::MAX,
        charge::settlement(
            store,
            meter::asked(policies, (needed + lookahead) as u64),
            0,
            now_ms,
        ) is Admitted,
    ensures
        charge::settlement(store, meter::asked(policies, needed), 0, now_ms) is Admitted,
{
    lemma_lookahead_is_spare_from(
        store,
        store,
        policies,
        0,
        needed,
        (needed + lookahead) as u64,
        now_ms,
    );
}

/// What a reservation comes to on stored buckets, as the meter goes about it:
/// with its lookahead, and where that is denied, without.
pub open spec fn reservation(
    store: Map<Seq<u8>, Seq<u8>>,
    policies: Seq<PendingCharge>,
    ask: meter::Reservation,
    now_ms: u64,
) -> Settlement {
    let ahead = charge::settlement(
        store,
        meter::asked(policies, (ask.needed + ask.lookahead) as u64),
        0,
        now_ms,
    );
    if ahead is Denied && ask.lookahead > 0 {
        charge::settlement(store, meter::asked(policies, ask.needed), 0, now_ms)
    } else {
        ahead
    }
}

/// Lookahead never turns a satisfiable reservation into a denial: a reservation
/// is granted if and only if just what is needed would be, and what it is
/// denied with is what just the need is denied with.
pub proof fn lemma_need_decides(
    store: Map<Seq<u8>, Seq<u8>>,
    policies: Seq<PendingCharge>,
    ask: meter::Reservation,
    now_ms: u64,
)
    requires
        0 < ask.needed,
        ask.needed + ask.lookahead <= u64::MAX,
    ensures
        reservation(store, policies, ask, now_ms) is Admitted <==> charge::settlement(
            store,
            meter::asked(policies, ask.needed),
            0,
            now_ms,
        ) is Admitted,
        reservation(store, policies, ask, now_ms) is Denied ==> reservation(
            store,
            policies,
            ask,
            now_ms,
        ) == charge::settlement(store, meter::asked(policies, ask.needed), 0, now_ms),
{
    if charge::settlement(
        store,
        meter::asked(policies, (ask.needed + ask.lookahead) as u64),
        0,
        now_ms,
    ) is Admitted {
        lemma_lookahead_is_spare(store, policies, ask.needed, ask.lookahead, now_ms);
    }
}

/// What happens to a meter.
pub enum MeterStep {
    /// Rows are scanned.
    Rows(u64),
    /// A reservation is answered.
    Answer(meter::Reservation, charge::ChargeOutcome),
}

/// A meter after some steps.
pub open spec fn after_steps(
    start: meter::ScanRatelimitMeter,
    steps: Seq<MeterStep>,
) -> meter::ScanRatelimitMeter
    decreases steps.len(),
{
    if steps.len() == 0 {
        start
    } else {
        let before = after_steps(start, steps.drop_last());
        match steps.last() {
            MeterStep::Rows(rows) => before.after_rows(rows),
            MeterStep::Answer(ask, outcome) => before.after_answer(ask, outcome),
        }
    }
}

/// Each step is one that the meter takes in the state that it is in then.
pub open spec fn steps_taken(start: meter::ScanRatelimitMeter, steps: Seq<MeterStep>) -> bool
    decreases steps.len(),
{
    steps.len() > 0 ==> {
        let before = after_steps(start, steps.drop_last());
        &&& steps_taken(start, steps.drop_last())
        &&& match steps.last() {
            MeterStep::Rows(rows) => before.consumed + rows <= u64::MAX,
            MeterStep::Answer(ask, outcome) => before.asks(ask),
        }
    }
}

/// The amounts that were admitted, in their order.
pub open spec fn admitted(steps: Seq<MeterStep>) -> Seq<u64>
    decreases steps.len(),
{
    if steps.len() == 0 {
        Seq::empty()
    } else {
        let front = admitted(steps.drop_last());
        match steps.last() {
            MeterStep::Answer(ask, charge::ChargeOutcome::Admitted) => front.push(
                (ask.needed + ask.lookahead) as u64,
            ),
            _ => front,
        }
    }
}

/// The rows that were scanned.
pub open spec fn rows_scanned(steps: Seq<MeterStep>) -> nat
    decreases steps.len(),
{
    if steps.len() == 0 {
        0
    } else {
        rows_scanned(steps.drop_last()) + match steps.last() {
            MeterStep::Rows(rows) => rows as nat,
            _ => 0,
        }
    }
}

/// Rows are paid: whatever a meter goes through, the amounts that were admitted
/// add up to its reservation, and whenever nothing has to be reserved they
/// cover all the rows that were scanned.
pub proof fn lemma_rows_are_paid(start: meter::ScanRatelimitMeter, steps: Seq<MeterStep>)
    requires
        start.valid(),
        start.consumed == 0,
        start.reserved == 0,
        start.policies@.len() > 0,
        steps_taken(start, steps),
    ensures
        after_steps(start, steps).valid(),
        after_steps(start, steps).policies == start.policies,
        after_steps(start, steps).lookahead_cap == start.lookahead_cap,
        ratelimit::total(admitted(steps)) == after_steps(start, steps).reserved,
        rows_scanned(steps) == after_steps(start, steps).consumed,
        after_steps(start, steps).consumed <= after_steps(start, steps).reserved ==> rows_scanned(
            steps,
        ) <= ratelimit::total(admitted(steps)),
        forall|i: int| 0 <= i < admitted(steps).len() ==> #[trigger] admitted(steps)[i] > 0,
    decreases steps.len(),
{
    if steps.len() > 0 {
        let front = steps.drop_last();
        lemma_rows_are_paid(start, front);
        let before = after_steps(start, front);
        match steps.last() {
            MeterStep::Answer(ask, charge::ChargeOutcome::Admitted) => {
                let amount = (ask.needed + ask.lookahead) as u64;
                assert(admitted(steps).drop_last() =~= admitted(front));
                assert(admitted(steps).last() == amount);
            },
            _ => {},
        }
    }
}

/// The stored buckets after batches of the given amounts were all admitted on
/// every policy, one after the other, or nothing if one was denied.
pub open spec fn after_reservations(
    store: Map<Seq<u8>, Seq<u8>>,
    policies: Seq<PendingCharge>,
    amounts: Seq<u64>,
    now_ms: u64,
) -> Option<Map<Seq<u8>, Seq<u8>>>
    decreases amounts.len(),
{
    if amounts.len() == 0 {
        Some(store)
    } else {
        match after_reservations(store, policies, amounts.drop_last(), now_ms) {
            Some(before) => match charge::settlement(
                before,
                meter::asked(policies, amounts.last()),
                0,
                now_ms,
            ) {
                Settlement::Admitted(after) => Some(after),
                Settlement::Denied(_, _) => None,
            },
            None => None,
        }
    }
}

/// On each bucket the batches come to what their charges come to.
proof fn lemma_reservations_each(
    store: Map<Seq<u8>, Seq<u8>>,
    policies: Seq<PendingCharge>,
    amounts: Seq<u64>,
    now_ms: u64,
    i: int,
)
    requires
        distinct(policies),
        0 <= i < policies.len(),
        forall|j: int| 0 <= j < amounts.len() ==> #[trigger] amounts[j] > 0,
        after_reservations(store, policies, amounts, now_ms) is Some,
    ensures
        ratelimit::after_all(
            policies[i],
            amounts,
            now_ms,
            charge::lookup(store, place(policies[i])),
        ) == Some(
            charge::lookup(
                after_reservations(store, policies, amounts, now_ms)->0,
                place(policies[i]),
            ),
        ),
        amounts.len() > 0 ==> policies[i].grants(),
    decreases amounts.len(),
{
    if amounts.len() > 0 {
        let front = amounts.drop_last();
        lemma_reservations_each(store, policies, front, now_ms, i);
        let before = after_reservations(store, policies, front, now_ms)->0;
        let after = after_reservations(store, policies, amounts, now_ms)->0;
        let batch = meter::asked(policies, amounts.last());
        assert forall|a: int, b: int| 0 <= a < b < batch.len() implies (#[trigger] batch[a]).key
            != (#[trigger] batch[b]).key by {
            assert(policies[a].key != policies[b].key);
        }
        lemma_settled_each(before, batch, 0, now_ms, after);
        assert(amounts.last() == amounts[amounts.len() - 1]);
        assert(batch[i] == ratelimit::asking(policies[i], amounts.last()));
        assert(charge::lookup(after, place(batch[i])) == charged(
            batch[i],
            now_ms,
            charge::lookup(before, place(batch[i])),
        ));
    }
}

/// A bucket of less than two to the power 53 tokens admits no amount that is
/// larger.
proof fn lemma_admitted_fits(charge: PendingCharge)
    requires
        ratelimit::bucket_size(charge.max, charge.limit) < 0x20_0000_0000_0000,
        charge.price() <= charge.capacity(),
    ensures
        charge.amount <= ratelimit::bucket_size(charge.max, charge.limit),
{
    let size = ratelimit::bucket_size(charge.max, charge.limit) as nat;
    if charge.amount > size {
        double::lemma_of_int_ordered(size + 1, charge.amount as nat);
        double::lemma_of_int_exact(size);
        double::lemma_of_int_exact(size + 1);
        double::lemma_units_ordered(double::of_int(size + 1) as int, double::of_int(size) as int);
        vstd::arithmetic::power2::lemma_pow2_pos(1074);
        assert(size * double::one() < (size + 1) * double::one()) by (nonlinear_arith)
            requires
                double::one() > 0,
        ;
    }
}

proof fn lemma_all_fit(
    charge: PendingCharge,
    amounts: Seq<u64>,
    now_ms: u64,
    stored: Option<Seq<u8>>,
    j: int,
)
    requires
        ratelimit::bucket_size(charge.max, charge.limit) < 0x20_0000_0000_0000,
        ratelimit::after_all(charge, amounts, now_ms, stored) is Some,
        0 <= j < amounts.len(),
    ensures
        amounts[j] <= 0x20_0000_0000_0000,
    decreases amounts.len(),
{
    if j < amounts.len() - 1 {
        lemma_all_fit(charge, amounts.drop_last(), now_ms, stored, j);
    } else {
        lemma_admitted_fits(ratelimit::asking(charge, amounts.last()));
    }
}

/// A bucket that was just written reads as it was written.
pub proof fn lemma_just_written(charge: PendingCharge, now_ms: u64, written: StoredBucket)
    requires
        charge.grants(),
        written.tokens <= charge.capacity(),
        written.last_ms == now_ms,
        written.expires_at_ms == bucket::expiry(
            now_ms,
            charge.period,
            charge.capacity(),
            charge.rate(),
        ),
        written.expires_at_ms > now_ms,
    ensures
        charge.current(now_ms, Some(bucket::encoding(written))) == written,
{
    ratelimit::lemma_terms(charge);
    bucket::lemma_decoding_of_encoding(written);
    bucket::lemma_refill_at_once(
        written,
        now_ms,
        charge.period,
        charge.capacity(),
        charge.rate(),
    );
}

/// A bucket that was full holds what is left of it after all of some amounts
/// were admitted at one instant, to the last token.
proof fn lemma_left_over(
    charge: PendingCharge,
    amounts: Seq<u64>,
    now_ms: u64,
    stored: Option<Seq<u8>>,
)
    requires
        charge.grants(),
        ratelimit::bucket_size(charge.max, charge.limit) < 0x20_0000_0000_0000,
        bucket::expiry(now_ms, charge.period, charge.capacity(), charge.rate()) > now_ms,
        charge.current(now_ms, stored).tokens == charge.capacity(),
        amounts.len() > 0,
        ratelimit::after_all(charge, amounts, now_ms, stored) is Some,
    ensures
        ratelimit::total(amounts) <= ratelimit::bucket_size(charge.max, charge.limit),
        ratelimit::after_all(charge, amounts, now_ms, stored)->0 == Some(
            bucket::encoding(
                StoredBucket {
                    tokens: double::of_int(
                        (ratelimit::bucket_size(charge.max, charge.limit) - ratelimit::total(
                            amounts,
                        )) as nat,
                    ),
                    last_ms: now_ms,
                    expires_at_ms: bucket::expiry(
                        now_ms,
                        charge.period,
                        charge.capacity(),
                        charge.rate(),
                    ),
                },
            ),
        ),
{
    let size = ratelimit::bucket_size(charge.max, charge.limit) as nat;
    let one = double::one();
    assert forall|j: int| 0 <= j < amounts.len() implies #[trigger] amounts[j]
        <= 0x20_0000_0000_0000 by {
        lemma_all_fit(charge, amounts, now_ms, stored, j);
    }
    ratelimit::lemma_no_over_admission(charge, amounts, now_ms, stored);
    ratelimit::lemma_terms(charge);
    double::lemma_of_int_exact(size);
    let front = amounts.drop_last();
    let before = ratelimit::after_all(charge, front, now_ms, stored)->0;
    let last = ratelimit::asking(charge, amounts.last());
    let written = last.verdict(now_ms, before)->Admit_0;
    double::lemma_difference_bound(last.current(now_ms, before).tokens, last.price());
    lemma_just_written(charge, now_ms, written);
    let sum = ratelimit::total(amounts);
    double::lemma_of_int_exact((size - sum) as nat);
    assert(size * one - sum * one == (size - sum) * one) by (nonlinear_arith);
    double::lemma_units_injective(
        written.tokens as int,
        double::of_int((size - sum) as nat) as int,
    );
}

/// Settlement: once a statement is through and its unused reservation is given
/// back, each bucket that was full before holds its size less the rows that
/// were scanned, to the last token. All of the lookahead is refunded, and none
/// of the rows.
pub proof fn lemma_settlement_pays_rows(
    start: meter::ScanRatelimitMeter,
    steps: Seq<MeterStep>,
    store: Map<Seq<u8>, Seq<u8>>,
    now_ms: u64,
    i: int,
)
    requires
        start.valid(),
        start.consumed == 0,
        start.reserved == 0,
        steps_taken(start, steps),
        after_steps(start, steps).consumed <= after_steps(start, steps).reserved,
        rows_scanned(steps) > 0,
        distinct(start.policies@),
        after_reservations(store, start.policies@, admitted(steps), now_ms) is Some,
        0 <= i < start.policies@.len(),
        ratelimit::bucket_size(start.policies@[i].max, start.policies@[i].limit)
            < 0x20_0000_0000_0000,
        bucket::expiry(
            now_ms,
            start.policies@[i].period,
            start.policies@[i].capacity(),
            start.policies@[i].rate(),
        ) > now_ms,
        charge::lookup(store, place(start.policies@[i])) is None,
    ensures
        ({
            let policy = start.policies@[i];
            let end = after_steps(start, steps);
            let reserved = after_reservations(store, start.policies@, admitted(steps), now_ms)->0;
            let unused = (end.reserved - end.consumed) as u64;
            let settled = if unused == 0 {
                reserved
            } else {
                refund::given_back(reserved, meter::asked(start.policies@, unused), 0, now_ms)
            };
            &&& rows_scanned(steps) <= ratelimit::bucket_size(policy.max, policy.limit)
            &&& charge::lookup(settled, place(policy)) == Some(
                bucket::encoding(
                    StoredBucket {
                        tokens: double::of_int(
                            (ratelimit::bucket_size(policy.max, policy.limit) - rows_scanned(
                                steps,
                            )) as nat,
                        ),
                        last_ms: now_ms,
                        expires_at_ms: bucket::expiry(
                            now_ms,
                            policy.period,
                            policy.capacity(),
                            policy.rate(),
                        ),
                    },
                ),
            )
        }),
{
    let policies = start.policies@;
    let policy = policies[i];
    let amounts = admitted(steps);
    lemma_rows_are_paid(start, steps);
    if amounts.len() == 0 {
        assert(ratelimit::total(amounts) == 0);
    }
    lemma_reservations_each(store, policies, amounts, now_ms, i);
    ratelimit::lemma_absent_is_full(policy, now_ms);
    lemma_left_over(policy, amounts, now_ms, None);
    let end = after_steps(start, steps);
    let reserved = after_reservations(store, policies, amounts, now_ms)->0;
    let unused = (end.reserved - end.consumed) as u64;
    let size = ratelimit::bucket_size(policy.max, policy.limit) as nat;
    let expires = bucket::expiry(now_ms, policy.period, policy.capacity(), policy.rate());
    let rest = (size - ratelimit::total(amounts)) as nat;
    let left = StoredBucket {
        tokens: double::of_int(rest),
        last_ms: now_ms,
        expires_at_ms: expires,
    };
    if unused > 0 {
        let batch = meter::asked(policies, unused);
        assert forall|a: int, b: int| 0 <= a < b < batch.len() implies (#[trigger] batch[a]).key
            != (#[trigger] batch[b]).key by {
            assert(policies[a].key != policies[b].key);
        }
        lemma_given_back_each(reserved, batch, 0, now_ms);
        let back = ratelimit::asking(policy, unused);
        assert(batch[i] == back);
        assert(charge::lookup(
            refund::given_back(reserved, batch, 0, now_ms),
            place(batch[i]),
        ) == returned(back, now_ms, charge::lookup(reserved, place(batch[i]))));
        ratelimit::lemma_terms(back);
        double::lemma_of_int_ordered(rest, size);
        double::lemma_of_int_ordered(rest + unused as nat, size);
        lemma_just_written(back, now_ms, left);
        double::lemma_of_int_exact(rest);
        double::lemma_of_int_exact(unused as nat);
        let one = double::one();
        assert(rest * one + unused * one == (rest + unused) * one) by (nonlinear_arith);
        double::lemma_of_int_bounds(unused as nat, 64);
        vstd::arithmetic::power2::lemma2_to64_rest();
        assert(double::sum(double::of_int(rest), double::of_int(unused as nat)) == double::of_int(
            rest + unused as nat,
        ));
    }
}

/// A key is that of a bucket of a batch.
pub open spec fn touches(charges: Seq<PendingCharge>, key: Seq<u8>) -> bool {
    exists|i: int| 0 <= i < charges.len() && key == place(#[trigger] charges[i])
}

/// Two states of the datastore hold the same buckets of a batch.
pub open spec fn agree(
    a: Map<Seq<u8>, Seq<u8>>,
    b: Map<Seq<u8>, Seq<u8>>,
    charges: Seq<PendingCharge>,
) -> bool {
    forall|i: int|
        0 <= i < charges.len() ==> charge::lookup(a, place(#[trigger] charges[i]))
            == charge::lookup(b, place(charges[i]))
}

/// What a batch comes to depends on its own buckets alone, and changes no
/// other.
proof fn lemma_settlement_is_local(
    a: Map<Seq<u8>, Seq<u8>>,
    b: Map<Seq<u8>, Seq<u8>>,
    charges: Seq<PendingCharge>,
    at: int,
    now_ms: u64,
)
    requires
        0 <= at <= charges.len(),
        agree(a, b, charges),
    ensures
        match (
            charge::settlement(a, charges, at, now_ms),
            charge::settlement(b, charges, at, now_ms),
        ) {
            (Settlement::Admitted(x), Settlement::Admitted(y)) => {
                &&& agree(x, y, charges)
                &&& forall|key: Seq<u8>|
                    !touches(charges, key) ==> #[trigger] charge::lookup(x, key) == charge::lookup(
                        a,
                        key,
                    )
                &&& forall|key: Seq<u8>|
                    !touches(charges, key) ==> #[trigger] charge::lookup(y, key) == charge::lookup(
                        b,
                        key,
                    )
            },
            (Settlement::Denied(s, r), Settlement::Denied(t, q)) => s == t && r == q,
            _ => false,
        },
    decreases charges.len() - at,
{
    if at < charges.len() {
        let c = charges[at];
        let key = place(c);
        assert(charge::lookup(a, key) == charge::lookup(b, key));
        if c.amount == 0 {
            lemma_settlement_is_local(a, b, charges, at + 1, now_ms);
        } else if c.grants() {
            match c.verdict(now_ms, charge::lookup(a, key)) {
                Verdict::Admit(left) => {
                    let value = bucket::encoding(left);
                    let a2 = a.insert(key, value);
                    let b2 = b.insert(key, value);
                    assert forall|i: int| 0 <= i < charges.len() implies charge::lookup(
                        a2,
                        place(#[trigger] charges[i]),
                    ) == charge::lookup(b2, place(charges[i])) by {
                        assert(charge::lookup(a, place(charges[i])) == charge::lookup(
                            b,
                            place(charges[i]),
                        ));
                    }
                    lemma_settlement_is_local(a2, b2, charges, at + 1, now_ms);
                    assert(touches(charges, key));
                    assert forall|k: Seq<u8>| !touches(charges, k) implies #[trigger] charge::lookup(
                        a2,
                        k,
                    ) == charge::lookup(a, k) by {}
                    assert forall|k: Seq<u8>| !touches(charges, k) implies #[trigger] charge::lookup(
                        b2,
                        k,
                    ) == charge::lookup(b, k) by {}
                },
                Verdict::Deny(_) => {},
            }
        }
    }
}

/// A batch that was committed.
pub struct Commit {
    pub charges: Seq<PendingCharge>,
    pub now_ms: u64,
    /// The state that its transaction began on.
    pub base: Map<Seq<u8>, Seq<u8>>,
    /// What its transaction saw at the commit, its own writes included.
    pub seen: Map<Seq<u8>, Seq<u8>>,
}

/// An optimistic commit that succeeds on the state `before` and leaves `after`:
/// the buckets of the batch are still as they were when the transaction began,
/// and what it wrote is put in their place.
pub open spec fn commits(
    before: Map<Seq<u8>, Seq<u8>>,
    commit: Commit,
    after: Map<Seq<u8>, Seq<u8>>,
) -> bool {
    &&& charge::settlement(commit.base, commit.charges, 0, commit.now_ms) == Settlement::Admitted(
        commit.seen,
    )
    &&& agree(commit.base, before, commit.charges)
    &&& forall|key: Seq<u8>|
        #[trigger] charge::lookup(after, key) == if touches(commit.charges, key) {
            charge::lookup(commit.seen, key)
        } else {
            charge::lookup(before, key)
        }
}

/// Whatever it began on, a commit that succeeds leaves what the batch comes to
/// on the state that it is committed on.
pub proof fn lemma_commit_is_serial(
    before: Map<Seq<u8>, Seq<u8>>,
    commit: Commit,
    after: Map<Seq<u8>, Seq<u8>>,
)
    requires
        commits(before, commit, after),
    ensures
        charge::settlement(before, commit.charges, 0, commit.now_ms) == Settlement::Admitted(after),
{
    lemma_settlement_is_local(commit.base, before, commit.charges, 0, commit.now_ms);
    let serial = charge::settlement(before, commit.charges, 0, commit.now_ms)->Admitted_0;
    assert forall|key: Seq<u8>| charge::lookup(serial, key) == #[trigger] charge::lookup(
        after,
        key,
    ) by {
        if touches(commit.charges, key) {
            let i = choose|i: int|
                0 <= i < commit.charges.len() && key == place(#[trigger] commit.charges[i]);
            assert(charge::lookup(commit.seen, place(commit.charges[i])) == charge::lookup(
                serial,
                place(commit.charges[i]),
            ));
        }
    }
    assert(serial.dom() =~= after.dom()) by {
        assert forall|key: Seq<u8>| serial.dom().contains(key) <==> after.dom().contains(key) by {
            assert(charge::lookup(serial, key) == charge::lookup(after, key));
        }
    }
    assert forall|key: Seq<u8>| serial.dom().contains(key) implies serial[key] == after[key] by {
        assert(charge::lookup(serial, key) == charge::lookup(after, key));
    }
    assert(serial =~= after);
}

/// The state after batches were settled one after the other, or nothing if one
/// was denied.
pub open spec fn one_by_one(
    store: Map<Seq<u8>, Seq<u8>>,
    batches: Seq<Commit>,
) -> Option<Map<Seq<u8>, Seq<u8>>>
    decreases batches.len(),
{
    if batches.len() == 0 {
        Some(store)
    } else {
        match one_by_one(store, batches.drop_last()) {
            Some(before) => match charge::settlement(
                before,
                batches.last().charges,
                0,
                batches.last().now_ms,
            ) {
                Settlement::Admitted(after) => Some(after),
                Settlement::Denied(_, _) => None,
            },
            None => None,
        }
    }
}

/// Attempts side by side: however the transactions of batches overlap, if their
/// commits succeed one after the other, the stored state is what the batches
/// come to one after the other. No admission is lost or counted twice.
pub proof fn lemma_side_by_side(states: Seq<Map<Seq<u8>, Seq<u8>>>, batches: Seq<Commit>)
    requires
        states.len() == batches.len() + 1,
        forall|k: int|
            0 <= k < batches.len() ==> commits(states[k], #[trigger] batches[k], states[k + 1]),
    ensures
        one_by_one(states[0], batches) == Some(states.last()),
    decreases batches.len(),
{
    if batches.len() > 0 {
        let n = batches.len() - 1;
        let front = states.drop_last();
        assert forall|k: int| 0 <= k < batches.drop_last().len() implies commits(
            front[k],
            #[trigger] batches.drop_last()[k],
            front[k + 1],
        ) by {
            assert(batches.drop_last()[k] == batches[k]);
        }
        lemma_side_by_side(front, batches.drop_last());
        assert(commits(states[n], batches[n], states[n + 1]));
        lemma_commit_is_serial(states[n], batches[n], states[n + 1]);
    }
}

/// Contention on one bucket: if commits of single charges on it succeed at one
/// instant, what they admitted and what is left add up to what was there. So no
/// more than the bucket held is admitted.
pub proof fn lemma_contended_bucket(
    states: Seq<Map<Seq<u8>, Seq<u8>>>,
    batches: Seq<Commit>,
    charge: PendingCharge,
    amounts: Seq<u64>,
    now_ms: u64,
)
    requires
        states.len() == batches.len() + 1,
        amounts.len() == batches.len(),
        forall|k: int|
            0 <= k < batches.len() ==> {
                &&& commits(states[k], #[trigger] batches[k], states[k + 1])
                &&& batches[k].charges == seq![ratelimit::asking(charge, amounts[k])]
                &&& batches[k].now_ms == now_ms
                &&& 0 < amounts[k] <= 0x20_0000_0000_0000
            },
        charge.grants(),
        ratelimit::bucket_size(charge.max, charge.limit) <= 0x20_0000_0000_0000,
        bucket::expiry(now_ms, charge.period, charge.capacity(), charge.rate()) > now_ms,
    ensures
        ratelimit::total(amounts) * double::one() + double::units(
            charge.current(now_ms, charge::lookup(states.last(), place(charge))).tokens as int,
        ) == double::units(
            charge.current(now_ms, charge::lookup(states[0], place(charge))).tokens as int,
        ),
        ratelimit::total(amounts) <= ratelimit::bucket_size(charge.max, charge.limit),
{
    lemma_contended_after_all(states, batches, charge, amounts, now_ms);
    assert forall|i: int| 0 <= i < amounts.len() implies #[trigger] amounts[i]
        <= 0x20_0000_0000_0000 by {
        assert(batches[i].now_ms == now_ms);
    }
    ratelimit::lemma_no_over_admission(
        charge,
        amounts,
        now_ms,
        charge::lookup(states[0], place(charge)),
    );
}

/// No spurious denial: while the commits on a bucket that was full leave enough
/// for a charge, the charge is admitted.
pub proof fn lemma_no_spurious_denial(
    states: Seq<Map<Seq<u8>, Seq<u8>>>,
    batches: Seq<Commit>,
    charge: PendingCharge,
    amounts: Seq<u64>,
    now_ms: u64,
    amount: u64,
)
    requires
        states.len() == batches.len() + 1,
        amounts.len() == batches.len(),
        forall|k: int|
            0 <= k < batches.len() ==> {
                &&& commits(states[k], #[trigger] batches[k], states[k + 1])
                &&& batches[k].charges == seq![ratelimit::asking(charge, amounts[k])]
                &&& batches[k].now_ms == now_ms
                &&& 0 < amounts[k] <= 0x20_0000_0000_0000
            },
        charge.grants(),
        ratelimit::bucket_size(charge.max, charge.limit) <= 0x20_0000_0000_0000,
        bucket::expiry(now_ms, charge.period, charge.capacity(), charge.rate()) > now_ms,
        charge::lookup(states[0], place(charge)) is None,
        ratelimit::total(amounts) + amount <= ratelimit::bucket_size(charge.max, charge.limit),
    ensures
        ratelimit::asking(charge, amount).verdict(
            now_ms,
            charge::lookup(states.last(), place(charge)),
        ) is Admit,
{
    lemma_contended_bucket(states, batches, charge, amounts, now_ms);
    ratelimit::lemma_absent_is_full(charge, now_ms);
    let size = ratelimit::bucket_size(charge.max, charge.limit) as nat;
    let sum = ratelimit::total(amounts);
    let one = double::one();
    let tokens = charge.current(now_ms, charge::lookup(states.last(), place(charge))).tokens;
    double::lemma_of_int_exact(size);
    double::lemma_of_int_exact(amount as nat);
    double::lemma_of_int_ordered(amount as nat, size);
    assert(sum * one + amount * one <= size * one) by (nonlinear_arith)
        requires
            sum + amount <= size,
    ;
    if tokens < double::of_int(amount as nat) {
        double::lemma_units_increase(tokens as int, double::of_int(amount as nat) as int);
    }
}

proof fn lemma_contended_after_all(
    states: Seq<Map<Seq<u8>, Seq<u8>>>,
    batches: Seq<Commit>,
    charge: PendingCharge,
    amounts: Seq<u64>,
    now_ms: u64,
)
    requires
        states.len() == batches.len() + 1,
        amounts.len() == batches.len(),
        forall|k: int|
            0 <= k < batches.len() ==> {
                &&& commits(states[k], #[trigger] batches[k], states[k + 1])
                &&& batches[k].charges == seq![ratelimit::asking(charge, amounts[k])]
                &&& batches[k].now_ms == now_ms
                &&& 0 < amounts[k] <= 0x20_0000_0000_0000
            },
    ensures
        ratelimit::after_all(
            charge,
            amounts,
            now_ms,
            charge::lookup(states[0], place(charge)),
        ) == Some(charge::lookup(states.last(), place(charge))),
    decreases batches.len(),
{
    if batches.len() > 0 {
        let n = batches.len() - 1;
        let front = states.drop_last();
        assert forall|k: int| 0 <= k < n implies {
            &&& commits(front[k], #[trigger] batches.drop_last()[k], front[k + 1])
            &&& batches.drop_last()[k].charges == seq![
                ratelimit::asking(charge, amounts.drop_last()[k]),
            ]
            &&& batches.drop_last()[k].now_ms == now_ms
            &&& 0 < amounts.drop_last()[k] <= 0x20_0000_0000_0000
        } by {
            assert(batches.drop_last()[k] == batches[k]);
        }
        lemma_contended_after_all(front, batches.drop_last(), charge, amounts.drop_last(), now_ms);
        let batch = batches[n];
        assert(commits(states[n], batch, states[n + 1]));
        lemma_commit_is_serial(states[n], batch, states[n + 1]);
        lemma_settled_each(states[n], batch.charges, 0, now_ms, states[n + 1]);
        assert(charge::lookup(states[n + 1], place(batch.charges[0])) == charged(
            batch.charges[0],
            now_ms,
            charge::lookup(states[n], place(batch.charges[0])),
        ));
    }
}

} // verus!
