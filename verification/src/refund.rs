//! Giving unused tokens back, one request to the datastore at a time.
//!
//! A refund is made with the best effort and tells nobody how it went: a lost
//! one keeps the limits conservative, and the continuous refill makes up for
//! it.
use crate::admission;
use crate::bucket;
use crate::bucket::StoredBucket;
use crate::charge;
use crate::charge::CHARGE_ATTEMPTS;
use crate::error;
use crate::error::KvsError;
use crate::ratelimit::PendingCharge;
use vstd::prelude::*;

verus! {

/// What a refund is waiting for.
#[derive(Debug, PartialEq, Eq)]
pub enum RefundPhase {
    /// A new write transaction, of its own.
    Begin,
    /// The stored bucket of the charge at `index`.
    Get { now_ms: u64, index: usize },
    /// A write of the bucket of the charge at `index`, on the condition that
    /// `previous` is still what is stored.
    Put { now_ms: u64, index: usize, bucket: StoredBucket, previous: Vec<u8> },
    /// The commit.
    Commit,
    /// The cancellation, and then perhaps another attempt.
    Cancel { again: bool },
    /// Nothing: the refund is over.
    Done,
}

/// A batch of charges on its way back.
#[derive(Debug)]
pub struct RefundRun {
    pub charges: Vec<PendingCharge>,
    /// The number of this attempt, from one.
    pub attempt: usize,
    pub phase: RefundPhase,
}

/// Whether there is anything to give back on a charge.
pub open spec fn refundable(charge: PendingCharge) -> bool {
    charge.amount > 0 && charge.grants()
}

/// What an attempt that is through with the charges before `i` waits for
/// next.
pub open spec fn refunding(charges: Seq<PendingCharge>, i: int, now_ms: u64) -> RefundPhase
    decreases charges.len() - i,
{
    if i < 0 || i >= charges.len() {
        RefundPhase::Commit
    } else if !refundable(charges[i]) {
        refunding(charges, i + 1, now_ms)
    } else {
        RefundPhase::Get { now_ms, index: i as usize }
    }
}

impl RefundRun {
    /// The run is at a place that it can get to.
    pub open spec fn valid(self) -> bool {
        &&& 1 <= self.attempt <= CHARGE_ATTEMPTS
        &&& match self.phase {
            RefundPhase::Get { now_ms, index } => self.at_charge(index),
            RefundPhase::Put { now_ms, index, bucket, previous } => self.at_charge(index),
            _ => true,
        }
    }

    /// The charge at `index` has something to give back.
    pub open spec fn at_charge(self, index: usize) -> bool {
        index < self.charges@.len() && refundable(self.charges@[index as int])
    }

    /// The charge that the run is at.
    pub open spec fn charge(self) -> PendingCharge {
        match self.phase {
            RefundPhase::Get { now_ms, index } => self.charges@[index as int],
            RefundPhase::Put { now_ms, index, bucket, previous } => self.charges@[index as int],
            _ => arbitrary(),
        }
    }

    /// The run has gone on to `phase`, and nothing else has changed.
    pub open spec fn moved(self, phase: RefundPhase, after: Self) -> bool {
        after == (RefundRun { phase, ..self })
    }

    /// The run tries again with a new transaction, or gives up when it has
    /// tried often enough.
    pub open spec fn retried(self, after: Self) -> bool {
        after == if self.attempt < CHARGE_ATTEMPTS {
            RefundRun {
                attempt: (self.attempt + 1) as usize,
                phase: RefundPhase::Begin,
                ..self
            }
        } else {
            RefundRun { phase: RefundPhase::Done, ..self }
        }
    }

    /// Starts to give a batch back. One of nothing is done at once.
    pub fn new(charges: Vec<PendingCharge>) -> (run: Self)
        ensures
            run.valid(),
            run.charges == charges,
            run.attempt == 1,
            run.phase == if charge::all_free(charges@) {
                RefundPhase::Done
            } else {
                RefundPhase::Begin
            },
    {
        let mut i: usize = 0;
        while i < charges.len() && charges[i].amount == 0
            invariant
                i <= charges@.len(),
                forall|j: int| 0 <= j < i ==> (#[trigger] charges@[j]).amount == 0,
            decreases charges@.len() - i,
        {
            i = i + 1;
        }
        let phase = if i == charges.len() {
            RefundPhase::Done
        } else {
            assert(charges@[i as int].amount != 0);
            RefundPhase::Begin
        };
        RefundRun { charges, attempt: 1, phase }
    }

    /// Finds what to wait for once the charges before `from` are through.
    fn seek(&mut self, from: usize, now_ms: u64)
        requires
            from <= old(self).charges@.len(),
            1 <= old(self).attempt <= CHARGE_ATTEMPTS,
        ensures
            old(self).moved(refunding(old(self).charges@, from as int, now_ms), *final(self)),
            final(self).valid(),
    {
        let mut i: usize = from;
        while i < self.charges.len() && (self.charges[i].amount == 0
            || !self.charges[i].is_granting())
            invariant
                from <= i <= self.charges@.len(),
                refunding(self.charges@, i as int, now_ms) == refunding(
                    self.charges@,
                    from as int,
                    now_ms,
                ),
            decreases self.charges@.len() - i,
        {
            i = i + 1;
        }
        if i == self.charges.len() {
            self.phase = RefundPhase::Commit;
        } else {
            self.phase = RefundPhase::Get { now_ms, index: i };
        }
    }

    /// Takes the answer to the wish for a transaction, and the time.
    pub fn began(&mut self, reply: Result<(), KvsError>, now_ms: u64)
        requires
            old(self).valid(),
            old(self).phase is Begin,
        ensures
            final(self).valid(),
            old(self).moved(
                match reply {
                    Ok(()) => refunding(old(self).charges@, 0, now_ms),
                    Err(_) => RefundPhase::Done,
                },
                *final(self),
            ),
    {
        match reply {
            Ok(()) => self.seek(0, now_ms),
            Err(_) => {
                self.phase = RefundPhase::Done;
            },
        }
    }

    /// The key to read or to write.
    pub fn key(&self) -> (key: Option<Vec<u8>>)
        requires
            self.valid(),
        ensures
            self.phase is Get || self.phase is Put <==> key is Some,
            key matches Some(key) ==> key@ == bucket::stored_at(self.charge().key),
    {
        match &self.phase {
            RefundPhase::Get { index, .. } => Some(bucket::kv_key(&self.charges[*index].key)),
            RefundPhase::Put { index, .. } => Some(bucket::kv_key(&self.charges[*index].key)),
            _ => None,
        }
    }

    /// The value to write.
    pub fn value(&self) -> (value: Option<Vec<u8>>)
        ensures
            match self.phase {
                RefundPhase::Put { bucket, .. } => value matches Some(value) && value@
                    == bucket::encoding(bucket),
                _ => value is None,
            },
    {
        match &self.phase {
            RefundPhase::Put { bucket, .. } => Some(bucket::encode_bucket(bucket)),
            _ => None,
        }
    }

    /// Takes the stored bucket of the charge that the run is at. Where there
    /// is none, it has expired or was swept, and there is nothing to give
    /// back into.
    pub fn got(&mut self, reply: Result<Option<Vec<u8>>, KvsError>)
        requires
            old(self).valid(),
            old(self).phase is Get,
        ensures
            final(self).valid(),
            old(self).phase matches RefundPhase::Get { now_ms, index } && old(self).moved(
                match reply {
                    Ok(Some(stored)) => RefundPhase::Put {
                        now_ms,
                        index,
                        bucket: old(self).charge().refunded(now_ms, stored@),
                        previous: stored,
                    },
                    Ok(None) => refunding(old(self).charges@, index + 1, now_ms),
                    Err(err) => RefundPhase::Cancel { again: error::conflicting(err) },
                },
                *final(self),
            ),
    {
        let (now_ms, index): (u64, usize) = match &self.phase {
            RefundPhase::Get { now_ms, index } => (*now_ms, *index),
            _ => {
                return;
            },
        };
        assert(index < self.charges.len());
        match reply {
            Ok(Some(stored)) => {
                let bucket = self.charges[index].give_back(now_ms, stored.as_slice());
                self.phase = RefundPhase::Put { now_ms, index, bucket, previous: stored };
            },
            Ok(None) => self.seek(index + 1, now_ms),
            Err(err) => {
                self.phase = RefundPhase::Cancel { again: error::is_conflict(&err) };
            },
        }
    }

    /// Takes the answer to the conditional write.
    pub fn put(&mut self, reply: Result<(), KvsError>)
        requires
            old(self).valid(),
            old(self).phase is Put,
        ensures
            final(self).valid(),
            old(self).phase matches RefundPhase::Put { now_ms, index, .. } && old(self).moved(
                match reply {
                    Ok(()) => refunding(old(self).charges@, index + 1, now_ms),
                    Err(err) => RefundPhase::Cancel { again: error::conflicting(err) },
                },
                *final(self),
            ),
    {
        let (now_ms, index): (u64, usize) = match &self.phase {
            RefundPhase::Put { now_ms, index, .. } => (*now_ms, *index),
            _ => {
                return;
            },
        };
        assert(index < self.charges.len());
        match error::put_bucket(reply) {
            Ok(true) => self.seek(index + 1, now_ms),
            Ok(false) => {
                self.phase = RefundPhase::Cancel { again: true };
            },
            Err(err) => {
                self.phase = RefundPhase::Cancel { again: error::is_conflict(&err) };
            },
        }
    }

    /// Goes back to a new transaction, or gives up.
    fn retry(&mut self)
        requires
            1 <= old(self).attempt <= CHARGE_ATTEMPTS,
        ensures
            final(self).valid(),
            old(self).retried(*final(self)),
    {
        if self.attempt < CHARGE_ATTEMPTS {
            self.attempt = self.attempt + 1;
            self.phase = RefundPhase::Begin;
        } else {
            self.phase = RefundPhase::Done;
        }
    }

    /// Takes the answer to the commit.
    pub fn committed(&mut self, reply: Result<(), KvsError>)
        requires
            old(self).valid(),
            old(self).phase is Commit,
        ensures
            final(self).valid(),
            if reply matches Err(err) && error::conflicting(err) {
                old(self).retried(*final(self))
            } else {
                old(self).moved(RefundPhase::Done, *final(self))
            },
    {
        match reply {
            Ok(()) => {
                self.phase = RefundPhase::Done;
            },
            Err(err) => {
                if error::is_conflict(&err) {
                    self.retry();
                } else {
                    self.phase = RefundPhase::Done;
                }
            },
        }
    }

    /// Takes note that the transaction was cancelled.
    pub fn cancelled(&mut self)
        requires
            old(self).valid(),
            old(self).phase is Cancel,
        ensures
            final(self).valid(),
            old(self).phase matches RefundPhase::Cancel { again } && if again {
                old(self).retried(*final(self))
            } else {
                old(self).moved(RefundPhase::Done, *final(self))
            },
    {
        if let RefundPhase::Cancel { again: true } = self.phase {
            self.retry();
        } else {
            self.phase = RefundPhase::Done;
        }
    }
}

/// The stored buckets after the charges from `i` on were given back. A bucket
/// without state stays without.
pub open spec fn given_back(
    store: Map<Seq<u8>, Seq<u8>>,
    charges: Seq<PendingCharge>,
    i: int,
    now_ms: u64,
) -> Map<Seq<u8>, Seq<u8>>
    decreases charges.len() - i,
{
    if i < 0 || i >= charges.len() {
        store
    } else {
        let key = bucket::stored_at(charges[i].key);
        let next = if refundable(charges[i]) && store.dom().contains(key) {
            store.insert(key, bucket::encoding(charges[i].refunded(now_ms, store[key])))
        } else {
            store
        };
        given_back(next, charges, i + 1, now_ms)
    }
}

/// An attempt at time `now_ms` that began on the stored buckets `base` and
/// sees `seen` in its transaction is on the way to give all of the batch
/// back.
pub open spec fn on_the_way_back(
    charges: Seq<PendingCharge>,
    phase: RefundPhase,
    now_ms: u64,
    base: Map<Seq<u8>, Seq<u8>>,
    seen: Map<Seq<u8>, Seq<u8>>,
) -> bool {
    match phase {
        RefundPhase::Get { now_ms: t, index } => t == now_ms && given_back(
            base,
            charges,
            0,
            now_ms,
        ) == given_back(seen, charges, index as int, now_ms),
        RefundPhase::Put { now_ms: t, index, bucket, previous } => {
            let key = bucket::stored_at(charges[index as int].key);
            &&& t == now_ms
            &&& charge::lookup(seen, key) == Some(previous@)
            &&& given_back(base, charges, 0, now_ms) == given_back(
                seen.insert(key, bucket::encoding(bucket)),
                charges,
                index + 1,
                now_ms,
            )
        },
        RefundPhase::Commit => given_back(base, charges, 0, now_ms) == seen,
        _ => false,
    }
}

proof fn lemma_refunding(
    charges: Seq<PendingCharge>,
    i: int,
    now_ms: u64,
    base: Map<Seq<u8>, Seq<u8>>,
    seen: Map<Seq<u8>, Seq<u8>>,
)
    requires
        0 <= i <= charges.len() <= usize::MAX,
        given_back(base, charges, 0, now_ms) == given_back(seen, charges, i, now_ms),
    ensures
        on_the_way_back(charges, refunding(charges, i, now_ms), now_ms, base, seen),
    decreases charges.len() - i,
{
    if i < charges.len() && !refundable(charges[i]) {
        lemma_refunding(charges, i + 1, now_ms, base, seen);
    }
}

/// A refund is atomic too: an attempt starts on the way to give all of the
/// batch back, stays on it when it reads what its transaction sees, and stays
/// on it when its writes are seen by its transaction.
pub proof fn lemma_attempt_gives_back(
    run: RefundRun,
    now_ms: u64,
    base: Map<Seq<u8>, Seq<u8>>,
    seen: Map<Seq<u8>, Seq<u8>>,
    stored: Vec<u8>,
)
    requires
        run.valid(),
        run.charges@.len() <= usize::MAX,
    ensures
        on_the_way_back(run.charges@, refunding(run.charges@, 0, now_ms), now_ms, base, base),
        run.phase matches RefundPhase::Get { now_ms: t, index } ==> on_the_way_back(
            run.charges@,
            run.phase,
            now_ms,
            base,
            seen,
        ) ==> {
            &&& charge::lookup(seen, bucket::stored_at(run.charge().key)) == Some(stored@)
                ==> on_the_way_back(
                run.charges@,
                RefundPhase::Put {
                    now_ms: t,
                    index,
                    bucket: run.charge().refunded(t, stored@),
                    previous: stored,
                },
                now_ms,
                base,
                seen,
            )
            &&& charge::lookup(seen, bucket::stored_at(run.charge().key)) is None ==> on_the_way_back(
                run.charges@,
                refunding(run.charges@, index + 1, t),
                now_ms,
                base,
                seen,
            )
        },
        run.phase matches RefundPhase::Put { now_ms: t, index, bucket, previous }
            ==> on_the_way_back(run.charges@, run.phase, now_ms, base, seen) ==> on_the_way_back(
            run.charges@,
            refunding(run.charges@, index + 1, t),
            now_ms,
            base,
            seen.insert(bucket::stored_at(run.charge().key), bucket::encoding(bucket)),
        ),
{
    lemma_refunding(run.charges@, 0, now_ms, base, base);
    if on_the_way_back(run.charges@, run.phase, now_ms, base, seen) {
        match run.phase {
            RefundPhase::Get { now_ms: t, index } => {
                if charge::lookup(seen, bucket::stored_at(run.charge().key)) is None {
                    lemma_refunding(run.charges@, index + 1, now_ms, base, seen);
                }
            },
            RefundPhase::Put { now_ms: t, index, bucket, previous } => {
                lemma_refunding(
                    run.charges@,
                    index + 1,
                    now_ms,
                    base,
                    seen.insert(bucket::stored_at(run.charge().key), bucket::encoding(bucket)),
                );
            },
            _ => {},
        }
    }
}

/// A refund never fills a bucket beyond its capacity and never takes a token
/// out of it.
pub proof fn lemma_refund_within_capacity(charge: PendingCharge, now_ms: u64, stored: Seq<u8>)
    requires
        charge.grants(),
    ensures
        charge.current(now_ms, Some(stored)).tokens <= charge.refunded(now_ms, stored).tokens
            <= charge.capacity(),
{
    let bucket = charge.current(now_ms, Some(stored));
    crate::ratelimit::lemma_terms(charge);
    crate::ratelimit::lemma_price_bound(charge);
    crate::double::lemma_sum_bounds(bucket.tokens, charge.price(), 64);
}

/// Refunds are given back in order: a batch that is followed by another leaves
/// what the second leaves on what the first left.
pub proof fn lemma_refunds_join(
    store: Map<Seq<u8>, Seq<u8>>,
    a: Seq<PendingCharge>,
    b: Seq<PendingCharge>,
    now_ms: u64,
)
    ensures
        given_back(store, a + b, 0, now_ms) == given_back(
            given_back(store, a, 0, now_ms),
            b,
            0,
            now_ms,
        ),
        given_back(store, Seq::empty(), 0, now_ms) == store,
{
    lemma_refunds_join_from(store, a, b, 0, now_ms);
}

proof fn lemma_refunds_join_from(
    store: Map<Seq<u8>, Seq<u8>>,
    a: Seq<PendingCharge>,
    b: Seq<PendingCharge>,
    i: int,
    now_ms: u64,
)
    requires
        0 <= i <= a.len(),
    ensures
        given_back(store, a + b, i, now_ms) == given_back(
            given_back(store, a, i, now_ms),
            b,
            0,
            now_ms,
        ),
    decreases a.len() - i,
{
    if i == a.len() {
        lemma_refund_behind(store, a, b, 0, now_ms);
    } else {
        let all = a + b;
        assert(all[i] == a[i]);
        let key = bucket::stored_at(a[i].key);
        let next = if refundable(a[i]) && store.dom().contains(key) {
            store.insert(key, bucket::encoding(a[i].refunded(now_ms, store[key])))
        } else {
            store
        };
        lemma_refunds_join_from(next, a, b, i + 1, now_ms);
    }
}

proof fn lemma_refund_behind(
    store: Map<Seq<u8>, Seq<u8>>,
    a: Seq<PendingCharge>,
    b: Seq<PendingCharge>,
    j: int,
    now_ms: u64,
)
    requires
        0 <= j <= b.len(),
    ensures
        given_back(store, a + b, a.len() + j, now_ms) == given_back(store, b, j, now_ms),
    decreases b.len() - j,
{
    if j < b.len() {
        let all = a + b;
        assert(all[a.len() + j] == b[j]);
        let key = bucket::stored_at(b[j].key);
        let next = if refundable(b[j]) && store.dom().contains(key) {
            store.insert(key, bucket::encoding(b[j].refunded(now_ms, store[key])))
        } else {
            store
        };
        lemma_refund_behind(next, a, b, j + 1, now_ms);
    }
}

/// What one refund leaves. Where the policy lets nothing through, nothing is
/// asked back, or the bucket has no state, all stays as it is. Otherwise the
/// state of that bucket gets the refund, and no other bucket changes.
pub proof fn lemma_refund_of_one(
    store: Map<Seq<u8>, Seq<u8>>,
    charge: PendingCharge,
    now_ms: u64,
    other: Seq<u8>,
)
    ensures
        ({
            let key = bucket::stored_at(charge.key);
            let after = given_back(store, seq![charge], 0, now_ms);
            &&& after.dom() == store.dom()
            &&& other != key && store.dom().contains(other) ==> after[other] == store[other]
            &&& store.dom().contains(key) ==> after[key] == if charge.amount > 0 && charge.limit > 0
                && admission::period_nanos(charge) > 0 {
                bucket::encoding(charge.refunded(now_ms, store[key]))
            } else {
                store[key]
            }
        }),
{
    reveal_with_fuel(given_back, 2);
    assert(seq![charge][0] == charge);
    assert(given_back(store, seq![charge], 0, now_ms).dom() =~= store.dom());
}

/// A refund that meets a conflict is tried again, from the start and with all of
/// its charges, up to four attempts.
pub proof fn lemma_refund_is_retried(run: RefundRun, err: KvsError, after: RefundRun)
    requires
        run.attempt <= 4,
        run.retried(after),
    ensures
        after.charges == run.charges,
        if run.attempt < 4 {
            after.phase is Begin && after.attempt == run.attempt + 1
        } else {
            after.phase is Done
        },
        error::conflicting(err) <==> err !is Other,
{
}

/// A refund that is over without a look at the datastore is one that leaves
/// every datastore as it is.
pub proof fn lemma_free_gives_nothing_back(
    store: Map<Seq<u8>, Seq<u8>>,
    charges: Seq<PendingCharge>,
    i: int,
    now_ms: u64,
)
    requires
        charge::all_free(charges),
        0 <= i <= charges.len(),
    ensures
        given_back(store, charges, i, now_ms) == store,
    decreases charges.len() - i,
{
    if i < charges.len() {
        assert(charges[i].amount == 0);
        lemma_free_gives_nothing_back(store, charges, i + 1, now_ms);
    }
}

/// A step from one phase to another keeps the batch and the number of the
/// attempt.
pub proof fn lemma_refund_steps_keep_the_batch(run: RefundRun, phase: RefundPhase, after: RefundRun)
    requires
        run.moved(phase, after),
    ensures
        after.phase == phase,
        after.charges == run.charges,
        after.attempt == run.attempt,
{
}

} // verus!
