//! Charges, refunds, sweeps and the meter against a datastore in memory.
use gov::bucket::{encode_bucket, kv_key, StoredBucket};
use gov::charge::{ChargeOutcome, ChargePhase, ChargeRun, CHARGE_ATTEMPTS};
use gov::cleanup::{plan_sweep, CLEANUP_BATCH, CLEANUP_INTERVAL};
use gov::clock::{epoch_millis, now_millis};
use gov::duration::Duration;
use gov::error::{is_conflict, Error, KvsError};
use gov::hasher::{BucketKey, BucketKeyHasher, StableHasher};
use gov::limiter::{CachedRatelimitPolicy, FastRatelimitBucket, PlanIdentity, RateLimiter};
use gov::meter::{ReserveOutcome, ScanRatelimitMeter};
use gov::ratelimit::PendingCharge;
use gov::refund::{RefundPhase, RefundRun};
use std::collections::BTreeMap;
use std::sync::Arc;

/// A datastore with optimistic transactions.
#[derive(Default)]
struct Store {
    data: BTreeMap<Vec<u8>, Vec<u8>>,
    /// How often each key was written.
    writes: BTreeMap<Vec<u8>, u64>,
}

/// A transaction sees the data of its start and what it wrote itself.
struct Txn {
    view: BTreeMap<Vec<u8>, Vec<u8>>,
    writes: BTreeMap<Vec<u8>, u64>,
    touched: Vec<Vec<u8>>,
}

impl Store {
    fn begin(&self) -> Txn {
        Txn { view: self.data.clone(), writes: self.writes.clone(), touched: Vec::new() }
    }

    fn commit(&mut self, txn: Txn) -> Result<(), KvsError> {
        for key in &txn.touched {
            if self.writes.get(key) != txn.writes.get(key) {
                return Err(KvsError::TransactionConflict("write conflict".to_string()));
            }
        }
        for key in txn.touched {
            *self.writes.entry(key.clone()).or_insert(0) += 1;
            match txn.view.get(&key) {
                Some(value) => self.data.insert(key, value.clone()),
                None => self.data.remove(&key),
            };
        }
        Ok(())
    }
}

impl Txn {
    fn get(&self, key: &[u8]) -> Option<Vec<u8>> {
        self.view.get(key).cloned()
    }

    fn putc(&mut self, key: Vec<u8>, value: Vec<u8>, old: Option<&Vec<u8>>) -> Result<(), KvsError> {
        if self.view.get(&key) != old {
            return Err(KvsError::TransactionConditionNotMet);
        }
        self.touched.push(key.clone());
        self.view.insert(key, value);
        Ok(())
    }
}

fn sweep(store: &mut Store, limiter: &mut RateLimiter, now_ms: u64) {
    let Some(sweep) = limiter.maybe_cleanup() else {
        return;
    };
    let mut txn = store.begin();
    let scan: Vec<(Vec<u8>, Vec<u8>)> = txn
        .view
        .range(sweep.start..sweep.end)
        .take(CLEANUP_BATCH as usize)
        .map(|(key, value)| (key.clone(), value.clone()))
        .collect();
    let plan = plan_sweep(scan, now_ms);
    for key in plan.delete {
        txn.view.remove(&key);
        txn.touched.push(key);
    }
    if store.commit(txn).is_ok() {
        limiter.finish_cleanup(plan.next);
    }
}

/// Answers what a charge is waiting for.
fn step(
    store: &mut Store,
    limiter: &mut RateLimiter,
    txn: &mut Option<Txn>,
    run: &mut ChargeRun,
    now_ms: u64,
) {
    match &run.phase {
        ChargePhase::Begin => {
            *txn = Some(store.begin());
            run.began(Ok(()), now_ms);
        }
        ChargePhase::Get { .. } => {
            let stored = txn.as_ref().unwrap().get(&run.key().unwrap());
            assert!(run.has_short_wait(&stored));
            run.got(Ok(stored));
        }
        ChargePhase::Put { previous, .. } => {
            let (key, value) = (run.key().unwrap(), run.value().unwrap());
            let reply = txn.as_mut().unwrap().putc(key, value, previous.as_ref());
            run.put(reply);
        }
        ChargePhase::Commit => {
            let reply = store.commit(txn.take().unwrap());
            run.committed(reply);
        }
        ChargePhase::Cancel { .. } => {
            *txn = None;
            run.cancelled();
        }
        ChargePhase::Cleanup => {
            sweep(store, limiter, now_ms);
            run.cleaned();
        }
        ChargePhase::Done(_) => {}
    }
}

fn charge_at(
    store: &mut Store,
    limiter: &mut RateLimiter,
    charges: &[PendingCharge],
    now_ms: u64,
) -> Result<ChargeOutcome, KvsError> {
    let mut run = ChargeRun::new(charges.to_vec());
    let mut txn = None;
    loop {
        if let ChargePhase::Done(result) = run.phase {
            return result;
        }
        step(store, limiter, &mut txn, &mut run, now_ms);
    }
}

fn charge(store: &mut Store, limiter: &mut RateLimiter, charges: &[PendingCharge]) -> ChargeOutcome {
    charge_at(store, limiter, charges, now_millis()).unwrap()
}

fn refund_at(store: &mut Store, charges: &[PendingCharge], now_ms: u64) {
    let mut run = RefundRun::new(charges.to_vec());
    let mut txn = None;
    loop {
        match &run.phase {
            RefundPhase::Begin => {
                txn = Some(store.begin());
                run.began(Ok(()), now_ms);
            }
            RefundPhase::Get { .. } => {
                let stored = txn.as_ref().unwrap().get(&run.key().unwrap());
                run.got(Ok(stored));
            }
            RefundPhase::Put { previous, .. } => {
                let (key, value) = (run.key().unwrap(), run.value().unwrap());
                let reply = txn.as_mut().unwrap().putc(key, value, Some(previous));
                run.put(reply);
            }
            RefundPhase::Commit => {
                let reply = store.commit(txn.take().unwrap());
                run.committed(reply);
            }
            RefundPhase::Cancel { .. } => run.cancelled(),
            RefundPhase::Done => return,
        }
    }
}

fn consume(
    store: &mut Store,
    limiter: &mut RateLimiter,
    meter: &mut ScanRatelimitMeter,
    rows: u64,
) -> Result<(), Error> {
    if meter.consume(rows) {
        return Ok(());
    }
    while let Some(mut ask) = meter.next_reservation() {
        loop {
            let outcome = charge(store, limiter, &meter.reserve(&ask));
            match meter.answered(ask, outcome) {
                ReserveOutcome::Reserved => break,
                ReserveOutcome::Retry(again) => ask = again,
                ReserveOutcome::Denied(err) => return Err(err),
            }
        }
    }
    Ok(())
}

fn key_of(name: &str) -> BucketKey {
    let mut hasher = BucketKeyHasher::new();
    hasher.write(name.as_bytes());
    hasher.finalize()
}

fn charge_of(name: &str, limit: u64, period: Duration, max: Option<u64>) -> PendingCharge {
    PendingCharge {
        scope: format!("table {name}"),
        key: key_of(name),
        limit,
        period,
        max,
        amount: 1,
    }
}

fn tokens_of(store: &Store, charge: &PendingCharge) -> f64 {
    let value = &store.data[&kv_key(&charge.key)];
    f64::from_bits(gov::bucket::decode_bucket(value).unwrap().tokens)
}

#[test]
fn charge_max_allows_burst_above_refill_limit() {
    let mut ds = Store::default();
    let mut limiter = RateLimiter::default();
    let burst = charge_of("burst", 1, Duration::from_secs(3600), Some(2));

    for _ in 0..2 {
        assert!(matches!(
            charge(&mut ds, &mut limiter, std::slice::from_ref(&burst)),
            ChargeOutcome::Admitted
        ));
    }
    match charge(&mut ds, &mut limiter, &[burst]) {
        ChargeOutcome::Denied { scope, retry_after } => {
            assert_eq!(scope, "table burst");
            assert!(retry_after.is_some());
        }
        other => panic!("expected denial, got {other:?}"),
    }
}

#[test]
fn charge_shares_bucket_across_limiter_instances() {
    let mut ds = Store::default();
    let mut limiter_a = RateLimiter::default();
    let mut limiter_b = RateLimiter::default();
    let shared = charge_of("shared", 1, Duration::from_secs(3600), None);

    assert!(matches!(
        charge(&mut ds, &mut limiter_a, std::slice::from_ref(&shared)),
        ChargeOutcome::Admitted
    ));
    assert!(matches!(
        charge(&mut ds, &mut limiter_b, &[shared]),
        ChargeOutcome::Denied { .. }
    ));
}

#[test]
fn charge_batch_is_all_or_nothing() {
    let mut ds = Store::default();
    let mut limiter = RateLimiter::default();
    let generous = charge_of("generous", 100, Duration::from_secs(3600), None);
    let strict = charge_of("strict", 1, Duration::from_secs(3600), None);

    // Drain the strict bucket.
    assert!(matches!(
        charge(&mut ds, &mut limiter, std::slice::from_ref(&strict)),
        ChargeOutcome::Admitted
    ));
    // A batch containing the drained bucket denies as a whole...
    assert!(matches!(
        charge(&mut ds, &mut limiter, &[generous.clone(), strict]),
        ChargeOutcome::Denied { .. }
    ));
    // ...and must not have consumed from the generous bucket: all 100 tokens
    // remain admissible.
    for _ in 0..100 {
        assert!(matches!(
            charge(&mut ds, &mut limiter, std::slice::from_ref(&generous)),
            ChargeOutcome::Admitted
        ));
    }
    assert!(matches!(
        charge(&mut ds, &mut limiter, &[generous]),
        ChargeOutcome::Denied { .. }
    ));
}

#[test]
fn charge_amount_above_capacity_is_permanently_denied() {
    let mut ds = Store::default();
    let mut limiter = RateLimiter::default();
    let mut oversized = charge_of("oversized", 10, Duration::from_secs(1), None);
    oversized.amount = 11;

    match charge(&mut ds, &mut limiter, &[oversized]) {
        ChargeOutcome::Denied { retry_after, .. } => {
            assert!(retry_after.is_none(), "capacity-exceeding batch has no retry-after")
        }
        other => panic!("expected denial, got {other:?}"),
    }
}

#[test]
fn concurrent_charges_on_one_bucket_do_not_spuriously_deny() {
    let mut ds = Store::default();
    let mut limiter = RateLimiter::default();
    let contended = charge_of("contended", 64, Duration::from_secs(3600), None);

    // Eight tasks that make eight charges each, one step at a time in turn.
    let mut tasks: Vec<(u32, Option<Txn>, ChargeRun)> =
        (0..8).map(|_| (8, None, ChargeRun::new(vec![contended.clone()]))).collect();
    let mut total = 0;
    while tasks.iter().any(|task| task.0 > 0) {
        for (left, txn, run) in &mut tasks {
            if *left == 0 {
                continue;
            }
            step(&mut ds, &mut limiter, txn, run, now_millis());
            if let ChargePhase::Done(result) = &run.phase {
                match result {
                    Ok(ChargeOutcome::Admitted) => total += 1,
                    Ok(ChargeOutcome::Denied { .. }) => {
                        assert!(total >= 64, "spurious denial after {total} admissions")
                    }
                    // Retries exhausted under extreme contention is
                    // acceptable; spurious denial is not.
                    Err(err) => assert!(is_conflict(err), "unexpected error: {err:?}"),
                }
                *left -= 1;
                *run = ChargeRun::new(vec![contended.clone()]);
            }
        }
    }
    // The bucket held exactly 64 tokens; no over-admission.
    assert!(total <= 64, "over-admitted: {total}");
    assert!(total > 0);
    // No admission was lost or counted twice.
    assert!((tokens_of(&ds, &contended) - (64 - total) as f64).abs() < 0.01);
}

#[test]
fn cleanup_removes_stale_bucket_keys() {
    let mut ds = Store::default();
    let mut limiter = RateLimiter::default();
    let expired_key = kv_key(&key_of("expired"));
    let expired_bucket = StoredBucket { tokens: 0.0f64.to_bits(), last_ms: 0, expires_at_ms: 1 };
    ds.data.insert(expired_key.clone(), encode_bucket(&expired_bucket));

    // Force the next charge to trigger a sweep.
    limiter.cleanup_counter = CLEANUP_INTERVAL;
    assert!(matches!(
        charge(
            &mut ds,
            &mut limiter,
            &[charge_of("cleanup-trigger", 1, Duration::from_secs(1), None)]
        ),
        ChargeOutcome::Admitted
    ));

    assert!(!ds.data.contains_key(&expired_key));
    // The bucket that was just charged is still there.
    assert_eq!(ds.data.len(), 1);
}

#[test]
fn cleanup_removes_undecodable_bucket_state() {
    let mut ds = Store::default();
    let mut limiter = RateLimiter::default();
    // Undecodable encoding: wrong length, no version byte.
    let stale_key = kv_key(&key_of("undecodable"));
    ds.data.insert(stale_key.clone(), vec![0u8; 24]);

    limiter.cleanup_counter = CLEANUP_INTERVAL;
    assert!(matches!(
        charge(
            &mut ds,
            &mut limiter,
            &[charge_of("cleanup-trigger", 1, Duration::from_secs(1), None)]
        ),
        ChargeOutcome::Admitted
    ));

    assert!(!ds.data.contains_key(&stale_key));
}

#[test]
fn meter_denies_scan_exceeding_capacity_mid_flight() {
    let mut ds = Store::default();
    let mut limiter = RateLimiter::default();
    let mut policy = charge_of("metered", 2, Duration::from_secs(3600), None);
    policy.amount = 0;
    let mut meter = ScanRatelimitMeter::new(vec![policy]);

    consume(&mut ds, &mut limiter, &mut meter, 1).unwrap();
    consume(&mut ds, &mut limiter, &mut meter, 1).unwrap();
    let err = consume(&mut ds, &mut limiter, &mut meter, 1).unwrap_err();
    assert!(
        matches!(err, Error::RateLimitExceeded { .. }),
        "expected mid-flight denial, got: {err:?}"
    );
}

#[test]
fn meter_settle_refunds_unused_reservation() {
    let mut ds = Store::default();
    let mut limiter = RateLimiter::default();
    let mut policy = charge_of("refunded", 100, Duration::from_secs(3600), None);
    policy.amount = 0;
    let mut meter = ScanRatelimitMeter::new(vec![policy.clone()]);

    // Force lookahead over-reservation, then settle to refund it.
    consume(&mut ds, &mut limiter, &mut meter, 1).unwrap();
    consume(&mut ds, &mut limiter, &mut meter, 1).unwrap();
    refund_at(&mut ds, &meter.settle().unwrap(), now_millis());

    // Exactly two tokens were consumed: 98 single charges must still admit,
    // and the 99th must deny.
    policy.amount = 1;
    for i in 0..98 {
        assert!(
            matches!(
                charge(&mut ds, &mut limiter, std::slice::from_ref(&policy)),
                ChargeOutcome::Admitted
            ),
            "charge {i} unexpectedly denied: refund did not land"
        );
    }
    assert!(matches!(charge(&mut ds, &mut limiter, &[policy]), ChargeOutcome::Denied { .. }));
}

#[test]
fn bucket_key_derivation_is_stable() {
    // The derived key is a persistence format: this vector must never change.
    // If this test fails, the key derivation changed and every live bucket in
    // existing datastores would be orphaned.
    let mut hasher = BucketKeyHasher::new();
    hasher.write(b"ns");
    hasher.write_u64(42);
    hasher.write(b"table");
    let key = hasher.finalize();
    assert_eq!(
        key.0,
        [119, 109, 44, 116, 225, 37, 254, 67, 248, 50, 246, 168, 128, 128, 19, 55],
        "bucket key derivation changed"
    );
}

#[test]
fn integers_are_hashed_little_endian() {
    let mut a = BucketKeyHasher::new();
    a.write_u8(1);
    a.write_u16(0x0203);
    a.write_u32(0x0405_0607);
    a.write_u64(0x0809_0a0b_0c0d_0e0f);
    a.write_u128(1 << 120);
    a.write_usize(5);
    a.write_i8(-1);
    a.write_i16(-2);
    a.write_i32(-3);
    a.write_i64(-4);
    a.write_i128(-5);
    a.write_isize(-6);
    let mut bytes = vec![1];
    bytes.extend_from_slice(&0x0203u16.to_le_bytes());
    bytes.extend_from_slice(&0x0405_0607u32.to_le_bytes());
    bytes.extend_from_slice(&0x0809_0a0b_0c0d_0e0fu64.to_le_bytes());
    bytes.extend_from_slice(&(1u128 << 120).to_le_bytes());
    bytes.extend_from_slice(&5u64.to_le_bytes());
    bytes.extend_from_slice(&(-1i8).to_le_bytes());
    bytes.extend_from_slice(&(-2i16).to_le_bytes());
    bytes.extend_from_slice(&(-3i32).to_le_bytes());
    bytes.extend_from_slice(&(-4i64).to_le_bytes());
    bytes.extend_from_slice(&(-5i128).to_le_bytes());
    bytes.extend_from_slice(&(-6i64).to_le_bytes());
    let mut b = BucketKeyHasher::new();
    b.write(&bytes);
    assert_eq!(a.finalize(), b.finalize());
    assert_eq!(a.finish(), b.finish());
    let hash = blake3::hash(&bytes);
    assert_eq!(a.finalize().0[..], hash.as_bytes()[..16]);
    assert_eq!(a.finish().to_le_bytes()[..], hash.as_bytes()[..8]);
}

#[test]
fn a_copied_key_builder_goes_on_by_itself() {
    let mut seed = BucketKeyHasher::new();
    seed.write(b"policy");
    let mut one = seed.clone();
    one.write(b"one");
    assert_eq!(seed.finalize(), key_of("policy"));
    assert_eq!(one.finalize(), key_of("policyone"));
}

#[test]
fn plan_cache_keys_are_fnv_hashes() {
    let mut hasher = StableHasher::new();
    assert_eq!(hasher.finish(), 0xcbf29ce484222325);
    hasher.write(b"foo");
    hasher.write(b"bar");
    assert_eq!(hasher.finish(), 0x85944171f73967e8);
    let mut joined = StableHasher::default();
    joined.write(b"foobar");
    assert_eq!(joined.finish(), hasher.finish());
}

#[test]
fn epoch_millis_are_saturated() {
    assert_eq!(epoch_millis(Some((12, 345_678_901))), 12_345);
    assert_eq!(epoch_millis(Some((u64::MAX, 0))), u64::MAX);
    assert_eq!(epoch_millis(None), 0);
    // The clock is well past the start of the epoch.
    assert!(now_millis() > 1_600_000_000_000);
}

#[test]
fn bucket_values_are_versioned_and_big_endian() {
    let bucket = StoredBucket { tokens: 1.5f64.to_bits(), last_ms: 0x0102, expires_at_ms: u64::MAX };
    let value = encode_bucket(&bucket);
    assert_eq!(
        value,
        vec![
            1, 0x3f, 0xf8, 0, 0, 0, 0, 0, 0, 0, 0, 0, 0, 0, 0, 1, 2, 255, 255, 255, 255, 255, 255,
            255, 255
        ]
    );
    assert_eq!(gov::bucket::decode_bucket(&value), Some(bucket));
    // Other lengths and versions, and tokens that are no amount, are absent.
    assert_eq!(gov::bucket::decode_bucket(&value[..24]), None);
    let mut other = value.clone();
    other[0] = 2;
    assert_eq!(gov::bucket::decode_bucket(&other), None);
    for tokens in [f64::NAN, f64::INFINITY, -1.0, -0.0, 0.0, f64::MAX] {
        let odd = StoredBucket { tokens: tokens.to_bits(), ..bucket };
        let decoded = gov::bucket::decode_bucket(&encode_bucket(&odd));
        assert_eq!(decoded, if tokens.is_finite() && tokens >= 0.0 { Some(odd) } else { None });
    }
}

#[test]
fn bucket_keys_have_the_prefix() {
    let key = kv_key(&BucketKey([7; 16]));
    assert_eq!(&key[..4], b"/!rl");
    assert_eq!(&key[4..], &[7; 16]);
}

#[test]
fn tokens_flow_in_continuously() {
    let mut ds = Store::default();
    let mut limiter = RateLimiter::default();
    // Ten tokens in ten seconds.
    let mut steady = charge_of("steady", 10, Duration::from_secs(10), None);
    steady.amount = 10;
    let now = 1_000_000;
    assert_eq!(
        charge_at(&mut ds, &mut limiter, std::slice::from_ref(&steady), now),
        Ok(ChargeOutcome::Admitted)
    );
    assert_eq!(tokens_of(&ds, &steady), 0.0);
    // After 2.5 seconds two and a half tokens are back, and one half of a
    // second is lacking for three.
    steady.amount = 3;
    assert_eq!(
        charge_at(&mut ds, &mut limiter, std::slice::from_ref(&steady), now + 2_500),
        Ok(ChargeOutcome::Denied {
            scope: "table steady".to_string(),
            retry_after: Duration::from_parts(0, 500_000_000),
        })
    );
    assert_eq!(
        charge_at(&mut ds, &mut limiter, std::slice::from_ref(&steady), now + 3_000),
        Ok(ChargeOutcome::Admitted)
    );
    assert_eq!(tokens_of(&ds, &steady), 0.0);
    // A clock that goes back adds nothing.
    steady.amount = 1;
    assert!(matches!(
        charge_at(&mut ds, &mut limiter, std::slice::from_ref(&steady), now),
        Ok(ChargeOutcome::Denied { .. })
    ));
    // The bucket never holds more than its capacity.
    steady.amount = 11;
    assert_eq!(
        charge_at(&mut ds, &mut limiter, std::slice::from_ref(&steady), u64::MAX / 2),
        Ok(ChargeOutcome::Denied { scope: "table steady".to_string(), retry_after: None })
    );
    steady.amount = 10;
    assert_eq!(
        charge_at(&mut ds, &mut limiter, std::slice::from_ref(&steady), u64::MAX / 2),
        Ok(ChargeOutcome::Admitted)
    );
}

#[test]
fn bucket_states_are_those_of_machine_arithmetic() {
    let mut ds = Store::default();
    let mut limiter = RateLimiter::default();
    let mut odd = charge_of("odd", 7, Duration::from_parts(3, 333_333_333).unwrap(), Some(1000));
    let capacity = 1000.0f64;
    let rate = 7.0 / std::time::Duration::new(3, 333_333_333).as_secs_f64();
    let mut now: u64 = 1_700_000_000_000;
    let (mut tokens, mut last) = (capacity, now);
    for i in 1..200u64 {
        odd.amount = i % 13;
        now += i * i % 1777;
        let elapsed = (now - last) as f64 / 1000.0;
        let up_to_date = (tokens + elapsed * rate).min(capacity);
        let outcome = charge_at(&mut ds, &mut limiter, std::slice::from_ref(&odd), now).unwrap();
        if odd.amount == 0 {
            assert_eq!(outcome, ChargeOutcome::Admitted);
            continue;
        }
        if up_to_date < odd.amount as f64 {
            let wait = (odd.amount as f64 - up_to_date) / rate;
            let wait = std::time::Duration::from_secs_f64(wait.max(0.0));
            assert_eq!(
                outcome,
                ChargeOutcome::Denied {
                    scope: "table odd".to_string(),
                    retry_after: Duration::from_parts(wait.as_secs(), wait.subsec_nanos()),
                }
            );
            continue;
        }
        assert_eq!(outcome, ChargeOutcome::Admitted);
        (tokens, last) = (up_to_date - odd.amount as f64, now);
        let bucket =
            gov::bucket::decode_bucket(&ds.data[&kv_key(&odd.key)]).expect("a stored bucket");
        let refill_ms = ((capacity / rate.max(f64::EPSILON)) * 1000.0) as u64;
        assert_eq!(bucket.tokens, tokens.to_bits());
        assert_eq!(bucket.last_ms, now);
        assert_eq!(bucket.expires_at_ms, now + refill_ms + 3333);
    }
}

#[test]
fn expired_state_counts_as_absent() {
    let mut ds = Store::default();
    let mut limiter = RateLimiter::default();
    let once = charge_of("once", 1, Duration::from_secs(10), None);
    let now = 5_000;
    charge_at(&mut ds, &mut limiter, std::slice::from_ref(&once), now).unwrap();
    let bucket = gov::bucket::decode_bucket(&ds.data[&kv_key(&once.key)]).unwrap();
    // Ten seconds to fill up and one period.
    assert_eq!(bucket.expires_at_ms, 25_000);
    let expired = StoredBucket { tokens: 0, last_ms: u64::MAX, expires_at_ms: now };
    ds.data.insert(kv_key(&once.key), encode_bucket(&expired));
    assert_eq!(
        charge_at(&mut ds, &mut limiter, std::slice::from_ref(&once), now),
        Ok(ChargeOutcome::Admitted)
    );
}

#[test]
fn policies_that_let_nothing_through_deny_for_good() {
    let mut ds = Store::default();
    let mut limiter = RateLimiter::default();
    let empty = charge_of("empty", 0, Duration::from_secs(1), Some(5));
    let timeless = charge_of("timeless", 5, Duration::from_secs(0), None);
    for charge in [empty, timeless] {
        let scope = charge.scope.clone();
        let denied = Ok(ChargeOutcome::Denied { scope, retry_after: None });
        assert_eq!(charge_at(&mut ds, &mut limiter, &[charge], 1), denied);
    }
    assert!(ds.data.is_empty());
    // Nothing is asked for, so nothing is denied and no sweep is counted.
    let mut free = charge_of("free", 0, Duration::from_secs(0), None);
    free.amount = 0;
    assert_eq!(charge_at(&mut ds, &mut limiter, &[free], 1), Ok(ChargeOutcome::Admitted));
    assert_eq!(limiter.cleanup_counter, 0);
}

#[test]
fn the_burst_defaults_to_the_limit() {
    for max in [None, Some(3)] {
        let mut ds = Store::default();
        let mut limiter = RateLimiter::default();
        let three = charge_of("three", 3, Duration::from_secs(60), max);
        for _ in 0..3 {
            assert_eq!(
                charge_at(&mut ds, &mut limiter, std::slice::from_ref(&three), 1),
                Ok(ChargeOutcome::Admitted)
            );
        }
        assert_eq!(
            charge_at(&mut ds, &mut limiter, std::slice::from_ref(&three), 1),
            Ok(ChargeOutcome::Denied {
                scope: "table three".to_string(),
                retry_after: Some(Duration::from_secs(20)),
            })
        );
    }
    // A bucket holds at least one token.
    let mut ds = Store::default();
    let none = charge_of("none", 3, Duration::from_secs(60), Some(0));
    assert_eq!(
        charge_at(&mut ds, &mut RateLimiter::default(), &[none], 1),
        Ok(ChargeOutcome::Admitted)
    );
}

#[test]
fn a_batch_over_one_bucket_adds_up() {
    let mut ds = Store::default();
    let mut limiter = RateLimiter::default();
    let two = charge_of("two", 2, Duration::from_secs(3600), None);
    let batch = [two.clone(), two.clone(), two.clone()];
    assert!(matches!(
        charge_at(&mut ds, &mut limiter, &batch, 1),
        Ok(ChargeOutcome::Denied { .. })
    ));
    assert!(ds.data.is_empty());
    assert_eq!(charge_at(&mut ds, &mut limiter, &batch[..2], 1), Ok(ChargeOutcome::Admitted));
    assert_eq!(tokens_of(&ds, &two), 0.0);
}

#[test]
fn refunds_restore_and_stay_within_capacity() {
    let mut ds = Store::default();
    let mut limiter = RateLimiter::default();
    let mut refunded = charge_of("back", 10, Duration::from_secs(3600), None);
    refunded.amount = 4;
    // There is nothing to give back into.
    refund_at(&mut ds, std::slice::from_ref(&refunded), 1_000);
    assert!(ds.data.is_empty());
    charge_at(&mut ds, &mut limiter, std::slice::from_ref(&refunded), 1_000).unwrap();
    assert_eq!(tokens_of(&ds, &refunded), 6.0);
    refund_at(&mut ds, std::slice::from_ref(&refunded), 1_000);
    assert_eq!(tokens_of(&ds, &refunded), 10.0);
    refund_at(&mut ds, std::slice::from_ref(&refunded), 1_000);
    assert_eq!(tokens_of(&ds, &refunded), 10.0);
}

#[test]
fn the_wait_that_was_told_is_enough() {
    let now: u64 = 1_700_000_000_000;
    for (limit, secs, nanos, size) in
        [(1, 3600, 0, 1), (7, 3, 333_333_333, 1000), (3, 0, 9_999_999, 10), (1, 1 << 33, 0, 5)]
    {
        let mut ds = Store::default();
        let mut limiter = RateLimiter::default();
        let period = Duration::from_parts(secs, nanos).unwrap();
        let mut waiting = charge_of("waiting", limit, period, Some(size));
        waiting.amount = size;
        let batch = std::slice::from_ref(&waiting);
        assert_eq!(charge_at(&mut ds, &mut limiter, batch, now), Ok(ChargeOutcome::Admitted));
        let Ok(ChargeOutcome::Denied { retry_after: Some(wait), .. }) =
            charge_at(&mut ds, &mut limiter, batch, now + 3)
        else {
            panic!("expected a wait");
        };
        let wait_ms = (wait.as_secs() as u128 * 1_000_000_000 + wait.subsec_nanos() as u128)
            .div_ceil(1_000_000) as u64;
        assert_eq!(
            charge_at(&mut ds, &mut limiter, batch, now + 3 + wait_ms + 1),
            Ok(ChargeOutcome::Admitted)
        );
    }
}

#[test]
fn a_long_wait_is_enough_with_a_longer_margin() {
    let now: u64 = 1_700_000_000_000;
    let mut ds = Store::default();
    let mut limiter = RateLimiter::default();
    let mut glacial = charge_of("glacial", 1, Duration::from_secs(1_000_000_000_000), Some(5));
    glacial.amount = 5;
    charge_at(&mut ds, &mut limiter, std::slice::from_ref(&glacial), now).unwrap();
    glacial.amount = 1;
    let batch = std::slice::from_ref(&glacial);
    let Ok(ChargeOutcome::Denied { retry_after: Some(wait), .. }) =
        charge_at(&mut ds, &mut limiter, batch, now + 3)
    else {
        panic!("expected a wait");
    };
    let wait_ms = wait.as_secs() * 1000 + 1000;
    assert_eq!(
        charge_at(&mut ds, &mut limiter, batch, now + 3 + 34 * wait_ms + 1),
        Ok(ChargeOutcome::Admitted)
    );
}

#[test]
fn state_of_short_periods_expires_when_the_bucket_would_be_nearly_full() {
    let now: u64 = 1_700_000_000_000;
    let period = Duration::from_parts(0, 1_000_000).unwrap();
    for size in [1u64, 3, 1000, 1 << 50] {
        let capacity = (size as f64).to_bits();
        let rate = (3.0 / std::time::Duration::from_millis(1).as_secs_f64()).to_bits();
        let expires_at_ms = gov::bucket::expiry_millis(now, period, capacity, rate);
        let mut bucket = StoredBucket { tokens: 0, last_ms: now, expires_at_ms };
        gov::bucket::refill_bucket(&mut bucket, expires_at_ms, period, capacity, rate);
        let missing = size as f64 - f64::from_bits(bucket.tokens);
        assert!(missing <= 18.0 * size as f64 / (1u64 << 53) as f64);
    }
}

#[test]
fn no_more_is_admitted_over_time_than_flows_in() {
    let mut ds = Store::default();
    let mut limiter = RateLimiter::default();
    let greedy = charge_of("greedy", 7, Duration::from_parts(3, 333_333_333).unwrap(), Some(20));
    let start: u64 = 1_700_000_000_000;
    let mut admitted = 0;
    for step in 0..20_000 {
        let now = start + 3 * step;
        if charge_at(&mut ds, &mut limiter, std::slice::from_ref(&greedy), now)
            == Ok(ChargeOutcome::Admitted)
        {
            admitted += 1;
        }
    }
    let flowed_in = 59.997 * 7.0 / 3.333_333_333;
    assert!(admitted as f64 <= 20.0 + flowed_in + 1e-9);
    assert!(admitted as f64 > 18.0 + flowed_in);
}

#[test]
fn state_expires_when_the_bucket_would_be_full() {
    let now: u64 = 1_700_000_000_000;
    let slow = charge_of("slow", 7, Duration::from_parts(3, 333_333_333).unwrap(), Some(1000));
    let capacity = 1000.0f64.to_bits();
    let rate = (7.0 / std::time::Duration::new(3, 333_333_333).as_secs_f64()).to_bits();
    let expires_at_ms = gov::bucket::expiry_millis(now, slow.period, capacity, rate);
    let mut bucket = StoredBucket { tokens: 0, last_ms: now, expires_at_ms };
    gov::bucket::refill_bucket(&mut bucket, expires_at_ms, slow.period, capacity, rate);
    assert_eq!(bucket.tokens, capacity);
}

#[test]
fn refilling_in_two_steps_is_as_good_as_in_one() {
    let now: u64 = 1_700_000_000_000;
    let period = Duration::from_parts(3, 333_333_333).unwrap();
    let capacity = 1000.0f64.to_bits();
    let rate = (7.0 / std::time::Duration::new(3, 333_333_333).as_secs_f64()).to_bits();
    for (sooner, later) in [(0, 17), (1, 1), (999, 12_345), (400_000, 500_000)] {
        let mut once = StoredBucket { tokens: 0.3f64.to_bits(), last_ms: now, expires_at_ms: now + 1 };
        let mut twice = once;
        gov::bucket::refill_bucket(&mut twice, now + sooner, period, capacity, rate);
        gov::bucket::refill_bucket(&mut twice, now + later, period, capacity, rate);
        gov::bucket::refill_bucket(&mut once, now + later, period, capacity, rate);
        assert_eq!((once.last_ms, once.expires_at_ms), (twice.last_ms, twice.expires_at_ms));
        let difference = f64::from_bits(once.tokens) - f64::from_bits(twice.tokens);
        assert!(difference.abs() <= 1000.0 / (1u64 << 46) as f64);
    }
}

#[test]
fn a_refunded_batch_leaves_every_bucket_as_it_was() {
    let mut ds = Store::default();
    let mut limiter = RateLimiter::default();
    let mut batch = vec![
        charge_of("a", 10, Duration::from_secs(60), None),
        charge_of("b", 3, Duration::from_secs(7), Some(5)),
        charge_of("c", 1, Duration::from_secs(1), None),
    ];
    batch[0].amount = 4;
    batch[1].amount = 2;
    batch[2].amount = 0;
    // Fractions of tokens from the refill are kept too.
    charge_at(&mut ds, &mut limiter, &batch, 1_000).unwrap();
    charge_at(&mut ds, &mut limiter, &batch, 1_333).unwrap();
    let first = gov::bucket::decode_bucket(&ds.data[&kv_key(&batch[0].key)]).unwrap();
    let before = f64::from_bits(first.tokens) + 4.0;
    refund_at(&mut ds, &batch, 1_333);
    assert_eq!(tokens_of(&ds, &batch[0]), before);
    assert!(!ds.data.contains_key(&kv_key(&batch[2].key)));
}

#[test]
fn refunds_of_very_large_buckets_are_off_by_roundings_alone() {
    let size = (1u64 << 53) + 2;
    let mut ds = Store::default();
    let mut limiter = RateLimiter::default();
    let huge = charge_of("huge", size, Duration::from_secs(3600), None);
    charge_at(&mut ds, &mut limiter, std::slice::from_ref(&huge), 1_000).unwrap();
    refund_at(&mut ds, std::slice::from_ref(&huge), 1_000);
    let off = (tokens_of(&ds, &huge) - size as f64).abs();
    assert!(off <= 5.0 * size as f64 / (1u64 << 53) as f64);
}

#[test]
fn a_settled_statement_has_paid_for_its_rows() {
    let mut ds = Store::default();
    let mut limiter = RateLimiter::default();
    let policies = vec![
        charge_of("rows", 1000, Duration::from_secs(3600), None),
        charge_of("more rows", 1, Duration::from_secs(3600), Some(400)),
    ];
    let mut meter = ScanRatelimitMeter::new(policies.clone());
    let now = 1_700_000_000_000;
    let mut admitted = 0;
    for rows in [1, 2, 30, 4, 50, 6] {
        if meter.consume(rows) {
            continue;
        }
        while let Some(ask) = meter.next_reservation() {
            let batch = meter.reserve(&ask);
            let outcome = charge_at(&mut ds, &mut limiter, &batch, now).unwrap();
            assert_eq!(meter.answered(ask, outcome), ReserveOutcome::Reserved);
            admitted += batch[0].amount;
        }
        assert_eq!(admitted, meter.reserved);
        assert!(meter.consumed <= admitted);
    }
    assert_eq!(meter.consumed, 93);
    refund_at(&mut ds, &meter.settle().unwrap(), now);
    assert_eq!(tokens_of(&ds, &policies[0]), 1000.0 - 93.0);
    assert_eq!(tokens_of(&ds, &policies[1]), 400.0 - 93.0);
}

#[test]
fn conflicts_are_surfaced_after_the_last_attempt() {
    let charge = charge_of("conflict", 5, Duration::from_secs(60), None);
    // A commit that always conflicts.
    let mut run = ChargeRun::new(vec![charge.clone()]);
    let mut begun = 0;
    while !matches!(run.phase, ChargePhase::Done(_)) {
        match &run.phase {
            ChargePhase::Begin => {
                begun += 1;
                run.began(Ok(()), 1);
            }
            ChargePhase::Get { .. } => run.got(Ok(None)),
            ChargePhase::Put { .. } => run.put(Ok(())),
            ChargePhase::Commit => {
                run.committed(Err(KvsError::TransactionConflict(format!("conflict {begun}"))))
            }
            other => panic!("unexpected {other:?}"),
        }
    }
    assert_eq!(begun, CHARGE_ATTEMPTS);
    assert_eq!(
        run.phase,
        ChargePhase::Done(Err(KvsError::TransactionConflict("conflict 4".to_string())))
    );
    // A write whose condition is never met.
    let mut run = ChargeRun::new(vec![charge.clone()]);
    let mut cancelled = 0;
    while !matches!(run.phase, ChargePhase::Done(_)) {
        match &run.phase {
            ChargePhase::Begin => run.began(Ok(()), 1),
            ChargePhase::Get { .. } => run.got(Ok(None)),
            ChargePhase::Put { .. } => run.put(Err(KvsError::TransactionConditionNotMet)),
            ChargePhase::Cancel { .. } => {
                cancelled += 1;
                run.cancelled();
            }
            other => panic!("unexpected {other:?}"),
        }
    }
    assert_eq!(cancelled, CHARGE_ATTEMPTS);
    assert_eq!(
        run.phase,
        ChargePhase::Done(Err(KvsError::TransactionConflict(
            "rate-limit bucket contention".to_string()
        )))
    );
}

#[test]
fn a_conflict_in_a_read_is_tried_again() {
    let mut run = ChargeRun::new(vec![charge_of("read", 5, Duration::from_secs(60), None)]);
    run.began(Ok(()), 1);
    run.got(Err(KvsError::TransactionConflict("read".to_string())));
    assert_eq!(run.phase, ChargePhase::Cancel { end: None });
    run.cancelled();
    assert_eq!((run.attempt, &run.phase), (2, &ChargePhase::Begin));
    run.began(Ok(()), 1);
    run.got(Ok(None));
    run.put(Ok(()));
    run.committed(Ok(()));
    run.cleaned();
    assert_eq!(run.phase, ChargePhase::Done(Ok(ChargeOutcome::Admitted)));
    // An unmet condition is a conflict too, and tells nothing to remember.
    let mut run = ChargeRun::new(vec![charge_of("read", 5, Duration::from_secs(60), None)]);
    run.began(Ok(()), 1);
    run.got(Err(KvsError::TransactionConditionNotMet));
    assert_eq!(run.phase, ChargePhase::Cancel { end: None });
    assert_eq!(run.last_conflict, None);
}

#[test]
fn a_conflict_in_a_write_is_tried_again_and_surfaced_last() {
    let mut run = ChargeRun::new(vec![charge_of("write", 5, Duration::from_secs(60), None)]);
    for attempt in 1..=CHARGE_ATTEMPTS {
        assert_eq!((run.attempt, &run.phase), (attempt, &ChargePhase::Begin));
        run.began(Ok(()), 1);
        run.got(Ok(None));
        run.put(Err(KvsError::TransactionConflict(format!("write {attempt}"))));
        assert_eq!(run.phase, ChargePhase::Cancel { end: None });
        run.cancelled();
    }
    assert_eq!(
        run.phase,
        ChargePhase::Done(Err(KvsError::TransactionConflict("write 4".to_string())))
    );
}

#[test]
fn a_conflict_in_a_refund_read_is_tried_again() {
    let mut refund = RefundRun::new(vec![charge_of("read", 5, Duration::from_secs(60), None)]);
    refund.began(Ok(()), 1);
    refund.got(Err(KvsError::TransactionConflict("read".to_string())));
    assert_eq!(refund.phase, RefundPhase::Cancel { again: true });
    refund.cancelled();
    assert_eq!((refund.attempt, &refund.phase), (2, &RefundPhase::Begin));
}

#[test]
fn a_conflict_in_a_refund_write_is_tried_again_and_dropped() {
    let mut refund = RefundRun::new(vec![charge_of("write", 5, Duration::from_secs(60), None)]);
    for attempt in 1..=CHARGE_ATTEMPTS {
        assert_eq!((refund.attempt, &refund.phase), (attempt, &RefundPhase::Begin));
        refund.began(Ok(()), 1);
        refund.got(Ok(Some(vec![])));
        refund.put(Err(KvsError::TransactionConflict("write".to_string())));
        assert_eq!(refund.phase, RefundPhase::Cancel { again: true });
        refund.cancelled();
    }
    assert_eq!(refund.phase, RefundPhase::Done);
}

#[test]
fn other_errors_end_a_charge_at_once() {
    let charge = charge_of("broken", 5, Duration::from_secs(60), None);
    let broken = || KvsError::Other("broken".to_string());
    let mut run = ChargeRun::new(vec![charge.clone()]);
    run.began(Err(broken()), 1);
    assert_eq!(run.phase, ChargePhase::Done(Err(broken())));
    let mut run = ChargeRun::new(vec![charge.clone()]);
    run.began(Ok(()), 1);
    run.got(Err(broken()));
    assert_eq!(run.phase, ChargePhase::Cancel { end: Some(Err(broken())) });
    run.cancelled();
    assert_eq!(run.phase, ChargePhase::Done(Err(broken())));
    let mut run = ChargeRun::new(vec![charge.clone()]);
    run.began(Ok(()), 1);
    run.got(Ok(None));
    run.put(Err(broken()));
    assert_eq!(run.phase, ChargePhase::Cancel { end: Some(Err(broken())) });
    let mut run = ChargeRun::new(vec![charge.clone()]);
    run.began(Ok(()), 1);
    run.got(Ok(None));
    run.put(Ok(()));
    run.committed(Err(broken()));
    assert_eq!(run.phase, ChargePhase::Done(Err(broken())));
    // A refund tells nobody.
    let mut refund = RefundRun::new(vec![charge.clone()]);
    refund.began(Err(broken()), 1);
    assert_eq!(refund.phase, RefundPhase::Done);
    let mut refund = RefundRun::new(vec![charge.clone()]);
    refund.began(Ok(()), 1);
    refund.got(Err(broken()));
    assert_eq!(refund.phase, RefundPhase::Cancel { again: false });
    refund.cancelled();
    assert_eq!(refund.phase, RefundPhase::Done);
    let mut refund = RefundRun::new(vec![charge]);
    refund.began(Ok(()), 1);
    refund.got(Ok(Some(vec![])));
    refund.put(Err(KvsError::TransactionConditionNotMet));
    assert_eq!(refund.phase, RefundPhase::Cancel { again: true });
    refund.cancelled();
    assert_eq!((refund.attempt, &refund.phase), (2, &RefundPhase::Begin));
}

#[test]
fn waits_that_no_span_can_hold_are_found() {
    let eternal = charge_of("eternal", 1, Duration::from_secs(u64::MAX), Some(10));
    let drained = StoredBucket { tokens: 0, last_ms: 1, expires_at_ms: u64::MAX };
    let mut run = ChargeRun::new(vec![PendingCharge { amount: 10, ..eternal.clone() }]);
    run.began(Ok(()), 1);
    assert!(!run.has_short_wait(&Some(encode_bucket(&drained))));
    assert!(run.has_short_wait(&None));
}

#[test]
fn sweeps_come_every_interval_and_rotate() {
    let mut ds = Store::default();
    let mut limiter = RateLimiter::default();
    // Long-lived buckets at all places of the keyspace, the last one included.
    for i in 0..=255u8 {
        let live = StoredBucket { tokens: 0, last_ms: 0, expires_at_ms: u64::MAX };
        ds.data.insert(kv_key(&BucketKey([i; 16])), encode_bucket(&live));
    }
    let stale = kv_key(&BucketKey([0xff; 16]));
    ds.data.insert(stale.clone(), vec![]);
    let mut cursors = Vec::new();
    for i in 0..6 {
        for j in 0..CLEANUP_INTERVAL {
            assert_eq!(limiter.cleanup_counter, i * CLEANUP_INTERVAL + j);
            sweep(&mut ds, &mut limiter, now_millis());
        }
        cursors.push(limiter.cleanup_cursor.clone());
    }
    assert!(!ds.data.contains_key(&stale));
    assert_eq!(ds.data.len(), 255);
    let behind = |i: u8| {
        let mut key = kv_key(&BucketKey([i; 16]));
        key.push(0);
        Some(key)
    };
    // The fourth sweep ends with the stale key, which leaves 255 behind.
    assert_eq!(cursors[..4], [behind(63), behind(127), behind(191), behind(255)]);
    assert_eq!(cursors[4], None);
    assert_eq!(cursors[5], behind(63));
    limiter.cleanup_counter = u64::MAX;
    assert!(limiter.maybe_cleanup().is_none());
    assert_eq!(limiter.cleanup_counter, 0);
}

#[test]
fn a_failed_sweep_starts_over() {
    let mut limiter = RateLimiter::default();
    limiter.finish_cleanup(Some(b"/!rlx".to_vec()));
    let sweep = limiter.maybe_cleanup().unwrap();
    assert_eq!((sweep.start, sweep.end), (b"/!rlx".to_vec(), b"/!rm".to_vec()));
    assert_eq!(limiter.cleanup_cursor, None);
}

#[test]
fn plans_are_only_for_their_identity() {
    let mut limiter = RateLimiter::default();
    let identity = PlanIdentity {
        ns: "ns".to_string(),
        db: "db".to_string(),
        table: "post".to_string(),
        action: "select".to_string(),
        schema_ts: 7,
    };
    assert!(limiter.cached_table_plan(1, &identity).is_none());
    let policy = CachedRatelimitPolicy {
        bucket: Some(FastRatelimitBucket::Ip),
        key_seed: BucketKeyHasher::new(),
        limit: 5,
        period: Duration::from_secs(1),
        max: None,
    };
    let plan = limiter.store_table_plan(1, identity.clone(), vec![policy]);
    assert!(Arc::ptr_eq(&plan, &limiter.cached_table_plan(1, &identity).unwrap()));
    assert_eq!(limiter.cached_table_plan(1, &identity).unwrap()[0].limit, 5);
    assert!(limiter.cached_table_plan(2, &identity).is_none());
    // A collision or a change of the schema is no hit.
    let mut others = vec![identity.clone(); 5];
    others[0].ns.push('x');
    others[1].db.push('x');
    others[2].table.push('x');
    others[3].action.push('x');
    others[4].schema_ts = 8;
    for other in &others {
        assert!(limiter.cached_table_plan(1, other).is_none());
    }
    limiter.store_table_plan(1, others[4].clone(), vec![]);
    assert!(limiter.cached_table_plan(1, &identity).is_none());
    assert_eq!(limiter.cached_table_plan(1, &others[4]).unwrap().len(), 0);
    limiter.clear_table_plans();
    assert!(limiter.cached_table_plan(1, &others[4]).is_none());
}

#[test]
fn lookahead_grows_up_to_a_quarter_of_the_smallest_bucket() {
    let mut ds = Store::default();
    let mut limiter = RateLimiter::default();
    let wide = charge_of("wide", 1_000_000, Duration::from_secs(3600), None);
    let narrow = charge_of("narrow", 1, Duration::from_secs(3600), Some(400));
    let mut meter = ScanRatelimitMeter::new(vec![wide.clone(), narrow.clone()]);
    assert_eq!(meter.lookahead_cap, 100);
    let mut seen = Vec::new();
    for _ in 0..200 {
        consume(&mut ds, &mut limiter, &mut meter, 1).unwrap();
        if seen.last() != Some(&meter.lookahead) {
            seen.push(meter.lookahead);
        }
        assert!(meter.reserved <= meter.consumed + meter.lookahead_cap);
    }
    assert_eq!(seen, vec![32, 64, 100]);
    // Bounds of the cap.
    assert_eq!(ScanRatelimitMeter::new(vec![]).lookahead_cap, 1);
    assert_eq!(ScanRatelimitMeter::new(vec![wide]).lookahead_cap, 4096);
    let tiny = charge_of("tiny", 3, Duration::from_secs(1), None);
    assert_eq!(ScanRatelimitMeter::new(vec![tiny]).lookahead_cap, 1);
}

#[test]
fn the_meter_counts_up_to_the_largest_number_of_rows() {
    let mut ds = Store::default();
    let mut limiter = RateLimiter::default();
    let policy = charge_of("largest", 100, Duration::from_secs(3600), None);
    let mut meter = ScanRatelimitMeter::new(vec![policy.clone()]);
    assert_eq!(
        consume(&mut ds, &mut limiter, &mut meter, u64::MAX),
        Err(Error::RateLimitExceeded { scope: "table largest".to_string(), retry_after: None })
    );
    // The lookahead is cut to what can still be counted.
    let mut meter = ScanRatelimitMeter::new(vec![policy]);
    consume(&mut ds, &mut limiter, &mut meter, 1).unwrap();
    assert_eq!(meter.lookahead, 25);
    assert!(!meter.consume(u64::MAX - 11));
    let ask = meter.next_reservation().unwrap();
    assert_eq!((ask.needed, ask.lookahead), (u64::MAX - 11, 10));
    assert_eq!(meter.reserve(&ask)[0].amount, u64::MAX - 1);
    assert_eq!(meter.answered(ask, ChargeOutcome::Admitted), ReserveOutcome::Reserved);
    assert_eq!(meter.reserved, u64::MAX);
    assert!(meter.consume(10));
    assert!(meter.next_reservation().is_none());
}

#[test]
fn denial_of_a_lookahead_is_asked_again_without_it() {
    let policy = charge_of("asked", 100, Duration::from_secs(3600), None);
    let mut meter = ScanRatelimitMeter::new(vec![policy]);
    assert!(!meter.consume(1));
    let ask = meter.next_reservation().unwrap();
    assert_eq!((ask.needed, ask.lookahead), (1, 0));
    assert_eq!(meter.answered(ask, ChargeOutcome::Admitted), ReserveOutcome::Reserved);
    assert!(meter.next_reservation().is_none());
    assert!(!meter.consume(5));
    let ask = meter.next_reservation().unwrap();
    assert_eq!((ask.needed, ask.lookahead), (5, 25));
    let batch = meter.reserve(&ask);
    assert_eq!((batch.len(), batch[0].amount), (1, 30));
    let denied = || ChargeOutcome::Denied { scope: "s".to_string(), retry_after: None };
    let ReserveOutcome::Retry(again) = meter.answered(ask, denied()) else {
        panic!("expected another try");
    };
    assert_eq!((again.needed, again.lookahead), (5, 0));
    assert_eq!(
        meter.answered(again, denied()),
        ReserveOutcome::Denied(Error::RateLimitExceeded {
            scope: "s".to_string(),
            retry_after: None
        })
    );
    assert_eq!((meter.reserved, meter.consumed), (1, 6));
    assert_eq!(meter.answered(again, ChargeOutcome::Admitted), ReserveOutcome::Reserved);
    assert_eq!((meter.reserved, meter.lookahead), (6, 0));
    assert!(meter.settle().is_none());
    // Without policies nothing is metered.
    let mut idle = ScanRatelimitMeter::new(vec![]);
    assert!(idle.consume(9));
    assert_eq!(idle.consumed, 0);
}

#[test]
fn messages_tell_scope_and_wait() {
    let err = Error::RateLimitExceeded {
        scope: "table post".to_string(),
        retry_after: Some(Duration::from_secs(90)),
    };
    assert_eq!(err.message(), "The rate limit of table post was exceeded, retry after 1m30s");
    let err = Error::RateLimitExceeded { scope: "table post".to_string(), retry_after: None };
    assert_eq!(err.message(), "The rate limit of table post was exceeded");
    let err = Error::QueryResourceExceeded { resource: "scan keys", limit: 10, used: 120 };
    assert_eq!(err.message(), "The query exceeded its limit of 10 scan keys: 120 used");
}
