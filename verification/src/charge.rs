//! Settling a batch of charges, one request to the datastore at a time.
//!
//! A [`ChargeRun`] says what to ask of the datastore next and takes the
//! answer. It never waits itself.
use crate::admission;
use crate::bucket;
use crate::bucket::StoredBucket;
use crate::duration::Duration;
use crate::error;
use crate::error::KvsError;
use crate::ratelimit::{PendingCharge, Verdict};
use vstd::prelude::*;

verus! {

/// How often a charge transaction is tried on optimistic conflict before the
/// conflict is surfaced to the caller.
pub const CHARGE_ATTEMPTS: usize = 4;

/// Result of settling a batch of charges.
#[derive(Debug, PartialEq, Eq)]
pub enum ChargeOutcome {
    Admitted,
    Denied {
        scope: String,
        /// Estimated wait until the bucket has refilled enough to admit the
        /// same batch. `None` means the batch exceeds the bucket capacity and
        /// can never be admitted.
        retry_after: Option<Duration>,
    },
}

impl Clone for ChargeOutcome {
    fn clone(&self) -> (outcome: Self)
        ensures
            outcome == *self,
    {
        match self {
            ChargeOutcome::Admitted => ChargeOutcome::Admitted,
            ChargeOutcome::Denied { scope, retry_after } => ChargeOutcome::Denied {
                scope: scope.clone(),
                retry_after: *retry_after,
            },
        }
    }
}

/// What a run is waiting for.
#[derive(Debug, PartialEq, Eq)]
pub enum ChargePhase {
    /// A new write transaction, of its own.
    Begin,
    /// The stored bucket of the charge at `index`.
    Get { now_ms: u64, index: usize },
    /// A write of the bucket of the charge at `index`, on the condition that
    /// `previous` is still what is stored.
    Put { now_ms: u64, index: usize, bucket: StoredBucket, previous: Option<Vec<u8>> },
    /// The commit.
    Commit,
    /// The cancellation. Then either the run is over or it tries again.
    Cancel { end: Option<Result<ChargeOutcome, KvsError>> },
    /// A sweep of expired buckets, if one is due.
    Cleanup,
    /// Nothing: the run is over.
    Done(Result<ChargeOutcome, KvsError>),
}

/// A batch of charges on its way to settlement.
#[derive(Debug)]
pub struct ChargeRun {
    pub charges: Vec<PendingCharge>,
    /// The number of this attempt, from one.
    pub attempt: usize,
    pub last_conflict: Option<KvsError>,
    pub phase: ChargePhase,
}

/// Whether nothing is asked for.
pub open spec fn all_free(charges: Seq<PendingCharge>) -> bool {
    forall|i: int| 0 <= i < charges.len() ==> (#[trigger] charges[i]).amount == 0
}

/// What an attempt that has settled the charges before `i` waits for next.
/// Charges of nothing are passed over. A policy that lets nothing through
/// denies without a look at its bucket. When all is settled the attempt
/// commits.
pub open spec fn settling(charges: Seq<PendingCharge>, i: int, now_ms: u64) -> ChargePhase
    decreases charges.len() - i,
{
    if i < 0 || i >= charges.len() {
        ChargePhase::Commit
    } else if charges[i].amount == 0 {
        settling(charges, i + 1, now_ms)
    } else if !charges[i].grants() {
        ChargePhase::Cancel {
            end: Some(Ok(ChargeOutcome::Denied { scope: charges[i].scope, retry_after: None })),
        }
    } else {
        ChargePhase::Get { now_ms, index: i as usize }
    }
}

/// The stored bytes that an answer holds.
pub open spec fn bytes_of(stored: Option<Vec<u8>>) -> Option<Seq<u8>> {
    match stored {
        Some(s) => Some(s@),
        None => None,
    }
}

/// What follows the stored bucket of a charge.
pub open spec fn after_get(
    charge: PendingCharge,
    now_ms: u64,
    index: usize,
    stored: Option<Vec<u8>>,
) -> ChargePhase {
    match charge.verdict(now_ms, bytes_of(stored)) {
        Verdict::Admit(bucket) => ChargePhase::Put { now_ms, index, bucket, previous: stored },
        Verdict::Deny(retry_after) => ChargePhase::Cancel {
            end: Some(Ok(ChargeOutcome::Denied { scope: charge.scope, retry_after })),
        },
    }
}

/// The error of a batch that met nothing but conflicts: the last one that a
/// commit told of, if any did.
pub open spec fn exhausted(last_conflict: Option<KvsError>, err: KvsError) -> bool {
    match last_conflict {
        Some(conflict) => err == conflict,
        None => err matches KvsError::TransactionConflict(text) && text@
            == "rate-limit bucket contention"@,
    }
}

impl ChargeRun {
    /// The run is at a place that it can get to.
    pub open spec fn valid(self) -> bool {
        &&& 1 <= self.attempt <= CHARGE_ATTEMPTS
        &&& self.last_conflict matches Some(err) ==> error::conflicting(err)
        &&& match self.phase {
            ChargePhase::Get { now_ms, index } => self.at_charge(index),
            ChargePhase::Put { now_ms, index, bucket, previous } => self.at_charge(index),
            _ => true,
        }
    }

    /// The charge at `index` asks a bucket for tokens.
    pub open spec fn at_charge(self, index: usize) -> bool {
        &&& index < self.charges@.len()
        &&& self.charges@[index as int].amount > 0
        &&& self.charges@[index as int].grants()
    }

    /// The charge that the run is at.
    pub open spec fn charge(self) -> PendingCharge {
        match self.phase {
            ChargePhase::Get { now_ms, index } => self.charges@[index as int],
            ChargePhase::Put { now_ms, index, bucket, previous } => self.charges@[index as int],
            _ => arbitrary(),
        }
    }

    /// The time that the run goes by at a charge.
    pub open spec fn now_ms(self) -> u64 {
        match self.phase {
            ChargePhase::Get { now_ms, .. } => now_ms,
            ChargePhase::Put { now_ms, .. } => now_ms,
            _ => 0,
        }
    }

    /// The run has gone on to `phase`, and nothing else has changed.
    pub open spec fn moved(self, phase: ChargePhase, after: Self) -> bool {
        after == (ChargeRun { phase, ..self })
    }

    /// The run has met an error inside its transaction, and waits for the
    /// transaction to be cancelled. A conflict is tried again after that, and
    /// anything else ends the run.
    pub open spec fn failed(self, err: KvsError, after: Self) -> bool {
        after == match err {
            KvsError::TransactionConditionNotMet => ChargeRun {
                phase: ChargePhase::Cancel { end: None },
                ..self
            },
            KvsError::TransactionConflict(_) => ChargeRun {
                phase: ChargePhase::Cancel { end: None },
                last_conflict: Some(err),
                ..self
            },
            KvsError::Other(_) => ChargeRun {
                phase: ChargePhase::Cancel { end: Some(Err(err)) },
                ..self
            },
        }
    }

    /// The run tries again with a new transaction, or gives up when it has
    /// tried often enough.
    pub open spec fn retried(self, last_conflict: Option<KvsError>, after: Self) -> bool {
        &&& after.charges == self.charges
        &&& after.last_conflict == if self.attempt < CHARGE_ATTEMPTS {
            last_conflict
        } else {
            None
        }
        &&& if self.attempt < CHARGE_ATTEMPTS {
            after.attempt == self.attempt + 1 && after.phase is Begin
        } else {
            after.attempt == self.attempt && (after.phase matches ChargePhase::Done(Err(err))
                && exhausted(last_conflict, err))
        }
    }

    /// Starts to settle a batch. A batch that asks for nothing is admitted at
    /// once.
    pub fn new(charges: Vec<PendingCharge>) -> (run: Self)
        ensures
            run.valid(),
            run.charges == charges,
            run.attempt == 1,
            run.last_conflict is None,
            run.phase == if all_free(charges@) {
                ChargePhase::Done(Ok(ChargeOutcome::Admitted))
            } else {
                ChargePhase::Begin
            },
    {
        let mut i: usize = 0;
        while i < charges.len() && charges[i].amount == 0
            invariant
                i <= charges@.len(),
                forall|j: int| 0 <= j < i ==> (#[trigger] charges@[j]).amount == 0,
            decreases charges@.len() - i,
        {
            i = i + 1;
        }
        let phase = if i == charges.len() {
            ChargePhase::Done(Ok(ChargeOutcome::Admitted))
        } else {
            assert(charges@[i as int].amount != 0);
            ChargePhase::Begin
        };
        ChargeRun { charges, attempt: 1, last_conflict: None, phase }
    }

    /// Finds what to wait for once the charges before `from` are settled.
    fn seek(&mut self, from: usize, now_ms: u64)
        requires
            from <= old(self).charges@.len(),
            1 <= old(self).attempt <= CHARGE_ATTEMPTS,
            old(self).last_conflict matches Some(err) ==> error::conflicting(err),
        ensures
            old(self).moved(settling(old(self).charges@, from as int, now_ms), *final(self)),
            final(self).valid(),
    {
        let mut i: usize = from;
        while i < self.charges.len() && self.charges[i].amount == 0
            invariant
                from <= i <= self.charges@.len(),
                settling(self.charges@, i as int, now_ms) == settling(
                    self.charges@,
                    from as int,
                    now_ms,
                ),
            decreases self.charges@.len() - i,
        {
            i = i + 1;
        }
        if i == self.charges.len() {
            self.phase = ChargePhase::Commit;
        } else if !self.charges[i].is_granting() {
            self.phase =
            ChargePhase::Cancel {
                end: Some(
                    Ok(
                        ChargeOutcome::Denied {
                            scope: self.charges[i].scope.clone(),
                            retry_after: None,
                        },
                    ),
                ),
            };
        } else {
            self.phase = ChargePhase::Get { now_ms, index: i };
        }
    }

    /// Takes the answer to the wish for a transaction, and the time.
    pub fn began(&mut self, reply: Result<(), KvsError>, now_ms: u64)
        requires
            old(self).valid(),
            old(self).phase is Begin,
        ensures
            final(self).valid(),
            old(self).moved(
                match reply {
                    Ok(()) => settling(old(self).charges@, 0, now_ms),
                    Err(err) => ChargePhase::Done(Err(err)),
                },
                *final(self),
            ),
    {
        match reply {
            Ok(()) => self.seek(0, now_ms),
            Err(err) => {
                self.phase = ChargePhase::Done(Err(err));
            },
        }
    }

    /// The key to read or to write.
    pub fn key(&self) -> (key: Option<Vec<u8>>)
        requires
            self.valid(),
        ensures
            self.phase is Get || self.phase is Put <==> key is Some,
            key matches Some(key) ==> key@ == bucket::stored_at(self.charge().key),
    {
        match &self.phase {
            ChargePhase::Get { index, .. } => Some(bucket::kv_key(&self.charges[*index].key)),
            ChargePhase::Put { index, .. } => Some(bucket::kv_key(&self.charges[*index].key)),
            _ => None,
        }
    }

    /// The value to write.
    pub fn value(&self) -> (value: Option<Vec<u8>>)
        ensures
            match self.phase {
                ChargePhase::Put { bucket, .. } => value matches Some(value) && value@
                    == bucket::encoding(bucket),
                _ => value is None,
            },
    {
        match &self.phase {
            ChargePhase::Put { bucket, .. } => Some(bucket::encode_bucket(bucket)),
            _ => None,
        }
    }

    /// Tests whether a wait that the run would have to tell, if this is what
    /// is stored, fits a span of time.
    pub fn has_short_wait(&self, stored: &Option<Vec<u8>>) -> (b: bool)
        requires
            self.valid(),
            self.phase is Get,
        ensures
            b == self.charge().wait_is_short(self.now_ms(), bytes_of(*stored)),
    {
        match &self.phase {
            ChargePhase::Get { now_ms, index } => {
                let bytes: Option<&[u8]> = match stored {
                    Some(s) => Some(s.as_slice()),
                    None => None,
                };
                self.charges[*index].has_short_wait(*now_ms, bytes)
            },
            _ => true,
        }
    }

    /// Takes the stored bucket of the charge that the run is at.
    pub fn got(&mut self, reply: Result<Option<Vec<u8>>, KvsError>)
        requires
            old(self).valid(),
            old(self).phase is Get,
            reply matches Ok(stored) ==> old(self).charge().wait_is_short(
                old(self).now_ms(),
                bytes_of(stored),
            ),
        ensures
            final(self).valid(),
            old(self).phase matches ChargePhase::Get { now_ms, index } && match reply {
                Ok(stored) => old(self).moved(
                    after_get(old(self).charge(), now_ms, index, stored),
                    *final(self),
                ),
                Err(err) => old(self).failed(err, *final(self)),
            },
    {
        let (now_ms, index): (u64, usize) = match &self.phase {
            ChargePhase::Get { now_ms, index } => (*now_ms, *index),
            _ => {
                return;
            },
        };
        match reply {
            Ok(stored) => {
                let bytes: Option<&[u8]> = match &stored {
                    Some(s) => Some(s.as_slice()),
                    None => None,
                };
                match self.charges[index].settle(now_ms, bytes) {
                    Verdict::Admit(bucket) => {
                        self.phase = ChargePhase::Put { now_ms, index, bucket, previous: stored };
                    },
                    Verdict::Deny(retry_after) => {
                        let scope = self.charges[index].scope.clone();
                        self.phase =
                        ChargePhase::Cancel {
                            end: Some(Ok(ChargeOutcome::Denied { scope, retry_after })),
                        };
                    },
                }
            },
            Err(err) => self.fail(err),
        }
    }

    /// Gives the attempt up on an error inside its transaction.
    fn fail(&mut self, err: KvsError)
        requires
            1 <= old(self).attempt <= CHARGE_ATTEMPTS,
            old(self).last_conflict matches Some(err) ==> error::conflicting(err),
        ensures
            final(self).valid(),
            old(self).failed(err, *final(self)),
    {
        match err {
            KvsError::TransactionConditionNotMet => {
                self.phase = ChargePhase::Cancel { end: None };
            },
            KvsError::TransactionConflict(text) => {
                self.last_conflict = Some(KvsError::TransactionConflict(text));
                self.phase = ChargePhase::Cancel { end: None };
            },
            KvsError::Other(text) => {
                self.phase = ChargePhase::Cancel { end: Some(Err(KvsError::Other(text))) };
            },
        }
    }

    /// Takes the answer to the conditional write. One that found something
    /// else stored is a conflict, and the attempt is given up.
    pub fn put(&mut self, reply: Result<(), KvsError>)
        requires
            old(self).valid(),
            old(self).phase is Put,
        ensures
            final(self).valid(),
            old(self).phase matches ChargePhase::Put { now_ms, index, .. } && match reply {
                Ok(()) => old(self).moved(
                    settling(old(self).charges@, index + 1, now_ms),
                    *final(self),
                ),
                Err(err) => old(self).failed(err, *final(self)),
            },
    {
        let (now_ms, index): (u64, usize) = match &self.phase {
            ChargePhase::Put { now_ms, index, .. } => (*now_ms, *index),
            _ => {
                return;
            },
        };
        assert(index < self.charges.len());
        match error::put_bucket(reply) {
            Ok(true) => self.seek(index + 1, now_ms),
            Ok(false) => self.fail(KvsError::TransactionConditionNotMet),
            Err(err) => self.fail(err),
        }
    }

    /// Goes back to a new transaction, or gives up.
    fn retry(&mut self)
        requires
            1 <= old(self).attempt <= CHARGE_ATTEMPTS,
            old(self).last_conflict matches Some(err) ==> error::conflicting(err),
        ensures
            final(self).valid(),
            old(self).retried(old(self).last_conflict, *final(self)),
    {
        if self.attempt < CHARGE_ATTEMPTS {
            self.attempt = self.attempt + 1;
            self.phase = ChargePhase::Begin;
        } else {
            let err = match self.last_conflict.take() {
                Some(err) => err,
                None => KvsError::TransactionConflict("rate-limit bucket contention".to_string()),
            };
            self.phase = ChargePhase::Done(Err(err));
        }
    }

    /// Takes the answer to the commit.
    pub fn committed(&mut self, reply: Result<(), KvsError>)
        requires
            old(self).valid(),
            old(self).phase is Commit,
        ensures
            final(self).valid(),
            match reply {
                Ok(()) => old(self).moved(ChargePhase::Cleanup, *final(self)),
                Err(err) => if error::conflicting(err) {
                    old(self).retried(Some(err), *final(self))
                } else {
                    old(self).moved(ChargePhase::Done(Err(err)), *final(self))
                },
            },
    {
        match reply {
            Ok(()) => {
                self.phase = ChargePhase::Cleanup;
            },
            Err(err) => {
                if error::is_conflict(&err) {
                    self.last_conflict = Some(err);
                    self.retry();
                } else {
                    self.phase = ChargePhase::Done(Err(err));
                }
            },
        }
    }

    /// Takes note that the transaction was cancelled.
    pub fn cancelled(&mut self)
        requires
            old(self).valid(),
            old(self).phase is Cancel,
        ensures
            final(self).valid(),
            old(self).phase matches ChargePhase::Cancel { end } && match end {
                Some(end) => old(self).moved(ChargePhase::Done(end), *final(self)),
                None => old(self).retried(old(self).last_conflict, *final(self)),
            },
    {
        let mut phase = ChargePhase::Begin;
        core::mem::swap(&mut phase, &mut self.phase);
        if let ChargePhase::Cancel { end: Some(end) } = phase {
            self.phase = ChargePhase::Done(end);
        } else {
            self.retry();
        }
    }

    /// Takes note that the sweep, if one was due, is over.
    pub fn cleaned(&mut self)
        requires
            old(self).valid(),
            old(self).phase is Cleanup,
        ensures
            final(self).valid(),
            old(self).moved(ChargePhase::Done(Ok(ChargeOutcome::Admitted)), *final(self)),
    {
        self.phase = ChargePhase::Done(Ok(ChargeOutcome::Admitted));
    }
}

/// What a batch comes to.
pub enum Settlement {
    /// Every charge is admitted. These are the stored buckets after it.
    Admitted(Map<Seq<u8>, Seq<u8>>),
    /// The policy at this place denies, and nothing is stored.
    Denied(String, Option<Duration>),
}

/// What the charges from `i` on come to on stored buckets: each one is settled
/// on what those before it left, and the first one that is denied denies the
/// batch.
pub open spec fn settlement(
    store: Map<Seq<u8>, Seq<u8>>,
    charges: Seq<PendingCharge>,
    i: int,
    now_ms: u64,
) -> Settlement
    decreases charges.len() - i,
{
    if i < 0 || i >= charges.len() {
        Settlement::Admitted(store)
    } else if charges[i].amount == 0 {
        settlement(store, charges, i + 1, now_ms)
    } else if !charges[i].grants() {
        Settlement::Denied(charges[i].scope, None)
    } else {
        let key = bucket::stored_at(charges[i].key);
        match charges[i].verdict(now_ms, lookup(store, key)) {
            Verdict::Admit(bucket) => settlement(
                store.insert(key, bucket::encoding(bucket)),
                charges,
                i + 1,
                now_ms,
            ),
            Verdict::Deny(retry_after) => Settlement::Denied(charges[i].scope, retry_after),
        }
    }
}

/// What is stored under a key.
pub open spec fn lookup(store: Map<Seq<u8>, Seq<u8>>, key: Seq<u8>) -> Option<Seq<u8>> {
    if store.dom().contains(key) {
        Some(store[key])
    } else {
        None
    }
}

/// An attempt at time `now_ms` that began on the stored buckets `base` and
/// sees `seen` in its transaction is on the way to what the batch comes to on
/// `base`. When it gets to the commit, what it has written is what the batch
/// comes to, and when it is denied, so is the batch.
pub open spec fn on_the_way(
    charges: Seq<PendingCharge>,
    phase: ChargePhase,
    now_ms: u64,
    base: Map<Seq<u8>, Seq<u8>>,
    seen: Map<Seq<u8>, Seq<u8>>,
) -> bool {
    match phase {
        ChargePhase::Get { now_ms: t, index } => t == now_ms && settlement(
            base,
            charges,
            0,
            now_ms,
        ) == settlement(seen, charges, index as int, now_ms),
        ChargePhase::Put { now_ms: t, index, bucket, previous } => {
            let key = bucket::stored_at(charges[index as int].key);
            &&& t == now_ms
            &&& bytes_of(previous) == lookup(seen, key)
            &&& settlement(base, charges, 0, now_ms) == settlement(
                seen.insert(key, bucket::encoding(bucket)),
                charges,
                index + 1,
                now_ms,
            )
        },
        ChargePhase::Commit => settlement(base, charges, 0, now_ms) == Settlement::Admitted(seen),
        ChargePhase::Cancel {
            end: Some(Ok(ChargeOutcome::Denied { scope, retry_after })),
        } => settlement(base, charges, 0, now_ms) == Settlement::Denied(scope, retry_after),
        _ => false,
    }
}

proof fn lemma_settling(
    charges: Seq<PendingCharge>,
    i: int,
    now_ms: u64,
    base: Map<Seq<u8>, Seq<u8>>,
    seen: Map<Seq<u8>, Seq<u8>>,
)
    requires
        0 <= i <= charges.len() <= usize::MAX,
        settlement(base, charges, 0, now_ms) == settlement(seen, charges, i, now_ms),
    ensures
        on_the_way(charges, settling(charges, i, now_ms), now_ms, base, seen),
    decreases charges.len() - i,
{
    if i < charges.len() && charges[i].amount == 0 {
        lemma_settling(charges, i + 1, now_ms, base, seen);
    }
}

/// Charges settle atomically, whatever the order of their buckets: an attempt
/// starts on the way to what the batch comes to on the stored buckets, stays
/// on it when it reads what its transaction sees, and stays on it when its
/// writes are seen by its transaction. It therefore commits only if every
/// charge is admitted, and writes just what that comes to.
pub proof fn lemma_attempt_settles(
    run: ChargeRun,
    now_ms: u64,
    base: Map<Seq<u8>, Seq<u8>>,
    seen: Map<Seq<u8>, Seq<u8>>,
    stored: Option<Vec<u8>>,
)
    requires
        run.valid(),
        run.charges@.len() <= usize::MAX,
    ensures
        on_the_way(run.charges@, settling(run.charges@, 0, now_ms), now_ms, base, base),
        run.phase matches ChargePhase::Get { now_ms: t, index } ==> on_the_way(
            run.charges@,
            run.phase,
            now_ms,
            base,
            seen,
        ) && bytes_of(stored) == lookup(seen, bucket::stored_at(run.charge().key)) ==> on_the_way(
            run.charges@,
            after_get(run.charge(), t, index, stored),
            now_ms,
            base,
            seen,
        ),
        run.phase matches ChargePhase::Put { now_ms: t, index, bucket, previous } ==> on_the_way(
            run.charges@,
            run.phase,
            now_ms,
            base,
            seen,
        ) ==> on_the_way(
            run.charges@,
            settling(run.charges@, index + 1, t),
            now_ms,
            base,
            seen.insert(bucket::stored_at(run.charge().key), bucket::encoding(bucket)),
        ),
{
    lemma_settling(run.charges@, 0, now_ms, base, base);
    match run.phase {
        ChargePhase::Put { now_ms: t, index, bucket, previous } => {
            if on_the_way(run.charges@, run.phase, now_ms, base, seen) {
                lemma_settling(
                    run.charges@,
                    index + 1,
                    now_ms,
                    base,
                    seen.insert(bucket::stored_at(run.charge().key), bucket::encoding(bucket)),
                );
            }
        },
        _ => {},
    }
}

/// Conflicts do not go on for ever: each new transaction of a batch is the next
/// attempt, and there are at most [`CHARGE_ATTEMPTS`] of them. What is surfaced
/// after the last one is a conflict.
pub proof fn lemma_attempts_are_bounded(
    run: ChargeRun,
    last_conflict: Option<KvsError>,
    after: ChargeRun,
)
    requires
        run.valid(),
        run.retried(last_conflict, after),
    ensures
        after.phase is Begin ==> run.attempt < after.attempt <= CHARGE_ATTEMPTS,
        after.phase is Begin || (after.phase matches ChargePhase::Done(Err(_))),
        after.phase matches ChargePhase::Done(Err(err)) ==> (last_conflict matches Some(conflict)
            ==> error::conflicting(conflict)) ==> error::conflicting(err),
{
}

/// Whether a charge is admitted by itself.
pub open spec fn admitted_alone(
    store: Map<Seq<u8>, Seq<u8>>,
    charge: PendingCharge,
    now_ms: u64,
) -> bool {
    charge.amount == 0 || (charge.grants() && charge.verdict(
        now_ms,
        lookup(store, bucket::stored_at(charge.key)),
    ) is Admit)
}

/// Policies AND-compose: a batch over different buckets is admitted if and
/// only if each charge would be admitted by itself.
pub proof fn lemma_policies_compose(
    store: Map<Seq<u8>, Seq<u8>>,
    charges: Seq<PendingCharge>,
    now_ms: u64,
)
    requires
        forall|i: int, j: int|
            0 <= i < j < charges.len() ==> (#[trigger] charges[i]).key != (
            #[trigger] charges[j]).key,
    ensures
        settlement(store, charges, 0, now_ms) is Admitted <==> (forall|i: int|
            0 <= i < charges.len() ==> admitted_alone(store, #[trigger] charges[i], now_ms)),
{
    lemma_policies_compose_from(store, store, charges, 0, now_ms);
}

proof fn lemma_policies_compose_from(
    store: Map<Seq<u8>, Seq<u8>>,
    seen: Map<Seq<u8>, Seq<u8>>,
    charges: Seq<PendingCharge>,
    at: int,
    now_ms: u64,
)
    requires
        0 <= at <= charges.len(),
        forall|i: int, j: int|
            0 <= i < j < charges.len() ==> (#[trigger] charges[i]).key != (
            #[trigger] charges[j]).key,
        forall|i: int|
            at <= i < charges.len() ==> lookup(
                seen,
                bucket::stored_at((#[trigger] charges[i]).key),
            ) == lookup(store, bucket::stored_at(charges[i].key)),
    ensures
        settlement(seen, charges, at, now_ms) is Admitted <==> (forall|i: int|
            at <= i < charges.len() ==> admitted_alone(store, #[trigger] charges[i], now_ms)),
    decreases charges.len() - at,
{
    if at < charges.len() {
        let charge = charges[at];
        let key = bucket::stored_at(charge.key);
        if charge.amount == 0 {
            lemma_policies_compose_from(store, seen, charges, at + 1, now_ms);
        } else if charge.grants() {
            match charge.verdict(now_ms, lookup(seen, key)) {
                Verdict::Admit(after) => {
                    let next = seen.insert(key, bucket::encoding(after));
                    assert forall|i: int| at + 1 <= i < charges.len() implies lookup(
                        next,
                        bucket::stored_at((#[trigger] charges[i]).key),
                    ) == lookup(store, bucket::stored_at(charges[i].key)) by {
                        if bucket::stored_at(charges[i].key) == key {
                            bucket::lemma_stored_at_injective(charges[i].key, charge.key);
                        }
                    }
                    lemma_policies_compose_from(store, next, charges, at + 1, now_ms);
                },
                Verdict::Deny(_) => {},
            }
        }
        assert(admitted_alone(store, charge, now_ms) ==> (settlement(seen, charges, at, now_ms)
            is Admitted <==> (forall|i: int|
            at + 1 <= i < charges.len() ==> admitted_alone(store, #[trigger] charges[i], now_ms))));
    }
}

/// A batch settles in order: one that is followed by another comes to what the
/// second comes to on the buckets that the first left, and where the first is
/// denied, so are both.
pub proof fn lemma_batches_join(
    store: Map<Seq<u8>, Seq<u8>>,
    a: Seq<PendingCharge>,
    b: Seq<PendingCharge>,
    now_ms: u64,
)
    ensures
        settlement(store, a + b, 0, now_ms) == match settlement(store, a, 0, now_ms) {
            Settlement::Admitted(between) => settlement(between, b, 0, now_ms),
            denied => denied,
        },
        settlement(store, Seq::empty(), 0, now_ms) == Settlement::Admitted(store),
{
    lemma_batches_join_from(store, a, b, 0, now_ms);
}

proof fn lemma_batches_join_from(
    store: Map<Seq<u8>, Seq<u8>>,
    a: Seq<PendingCharge>,
    b: Seq<PendingCharge>,
    i: int,
    now_ms: u64,
)
    requires
        0 <= i <= a.len(),
    ensures
        settlement(store, a + b, i, now_ms) == match settlement(store, a, i, now_ms) {
            Settlement::Admitted(between) => settlement(between, b, 0, now_ms),
            denied => denied,
        },
    decreases a.len() - i,
{
    if i == a.len() {
        lemma_batch_behind(store, a, b, 0, now_ms);
    } else {
        let all = a + b;
        assert(all[i] == a[i]);
        let key = bucket::stored_at(a[i].key);
        if a[i].amount == 0 {
            lemma_batches_join_from(store, a, b, i + 1, now_ms);
        } else if a[i].grants() {
            if let Verdict::Admit(after) = a[i].verdict(now_ms, lookup(store, key)) {
                lemma_batches_join_from(
                    store.insert(key, bucket::encoding(after)),
                    a,
                    b,
                    i + 1,
                    now_ms,
                );
            }
        }
    }
}

proof fn lemma_batch_behind(
    store: Map<Seq<u8>, Seq<u8>>,
    a: Seq<PendingCharge>,
    b: Seq<PendingCharge>,
    j: int,
    now_ms: u64,
)
    requires
        0 <= j <= b.len(),
    ensures
        settlement(store, a + b, a.len() + j, now_ms) == settlement(store, b, j, now_ms),
    decreases b.len() - j,
{
    if j < b.len() {
        let all = a + b;
        assert(all[a.len() + j] == b[j]);
        let key = bucket::stored_at(b[j].key);
        if b[j].amount == 0 {
            lemma_batch_behind(store, a, b, j + 1, now_ms);
        } else if b[j].grants() {
            if let Verdict::Admit(after) = b[j].verdict(now_ms, lookup(store, key)) {
                lemma_batch_behind(
                    store.insert(key, bucket::encoding(after)),
                    a,
                    b,
                    j + 1,
                    now_ms,
                );
            }
        }
    }
}

/// What one charge comes to: one of nothing is admitted and changes nothing. A
/// limit of zero, or over a period of zero, denies everything else for good.
/// Otherwise the stored bucket decides, and no other bucket changes.
pub proof fn lemma_batch_of_one(
    store: Map<Seq<u8>, Seq<u8>>,
    charge: PendingCharge,
    now_ms: u64,
    other: Seq<u8>,
)
    ensures
        ({
            let key = bucket::stored_at(charge.key);
            let stored = if store.dom().contains(key) {
                Some(store[key])
            } else {
                None
            };
            match settlement(store, seq![charge], 0, now_ms) {
                Settlement::Admitted(after) => if charge.amount == 0 {
                    after == store
                } else {
                    &&& charge.limit > 0
                    &&& admission::period_nanos(charge) > 0
                    &&& charge.verdict(now_ms, stored) matches Verdict::Admit(bucket)
                    &&& after.dom().contains(key)
                    &&& after[key] == bucket::encoding(bucket)
                    &&& other != key ==> after.dom().contains(other) == store.dom().contains(other)
                    &&& other != key ==> after[other] == store[other]
                },
                Settlement::Denied(scope, retry_after) => {
                    &&& charge.amount > 0
                    &&& scope == charge.scope
                    &&& if charge.limit == 0 || admission::period_nanos(charge) == 0 {
                        retry_after is None
                    } else {
                        charge.verdict(now_ms, stored) == Verdict::Deny(retry_after)
                    }
                },
            }
        }),
{
    reveal_with_fuel(settlement, 2);
    assert(seq![charge][0] == charge);
}

/// A batch that is admitted without a look at the datastore is one that every
/// datastore admits, unchanged. Every batch of nothing is.
pub proof fn lemma_free_is_admitted(
    store: Map<Seq<u8>, Seq<u8>>,
    charges: Seq<PendingCharge>,
    now_ms: u64,
)
    ensures
        all_free(charges) ==> settlement(store, charges, 0, now_ms) == Settlement::Admitted(store),
        (forall|i: int| 0 <= i < charges.len() ==> (#[trigger] charges[i]).amount == 0) ==> all_free(
            charges,
        ),
{
    if all_free(charges) {
        lemma_free_is_admitted_from(store, charges, 0, now_ms);
    }
}

proof fn lemma_free_is_admitted_from(
    store: Map<Seq<u8>, Seq<u8>>,
    charges: Seq<PendingCharge>,
    i: int,
    now_ms: u64,
)
    requires
        0 <= i <= charges.len(),
        forall|j: int| 0 <= j < charges.len() ==> (#[trigger] charges[j]).amount == 0,
    ensures
        settlement(store, charges, i, now_ms) == Settlement::Admitted(store),
    decreases charges.len() - i,
{
    if i < charges.len() {
        assert(charges[i].amount == 0);
        lemma_free_is_admitted_from(store, charges, i + 1, now_ms);
    }
}

/// What an error inside a transaction leads to, once the transaction is
/// cancelled. Of a conflict the batch is tried again, from the start and with
/// all of its charges, up to four attempts. After the fourth the last conflict
/// that has a text is surfaced. Any other error ends the batch at once, and is
/// surfaced.
pub proof fn lemma_errors_are_retried(
    run: ChargeRun,
    err: KvsError,
    failed: ChargeRun,
    after: ChargeRun,
)
    requires
        run.attempt <= 4,
        run.failed(err, failed),
        failed.phase matches ChargePhase::Cancel { end } && match end {
            Some(end) => failed.moved(ChargePhase::Done(end), after),
            None => failed.retried(failed.last_conflict, after),
        },
    ensures
        after.charges == run.charges,
        match err {
            KvsError::Other(_) => after.phase == ChargePhase::Done(Err(err)),
            _ => if run.attempt < 4 {
                &&& after.phase is Begin
                &&& after.attempt == run.attempt + 1
                &&& err is TransactionConflict ==> after.last_conflict == Some(err)
                &&& err is TransactionConditionNotMet ==> after.last_conflict == run.last_conflict
            } else {
                &&& after.phase matches ChargePhase::Done(Err(last))
                &&& err is TransactionConflict ==> last == err
                &&& err is TransactionConditionNotMet && run.last_conflict is Some ==> last
                    == run.last_conflict->0
                &&& err is TransactionConditionNotMet && run.last_conflict is None ==> (last matches
                    KvsError::TransactionConflict(text) && text@ == "rate-limit bucket contention"@)
            },
        },
{
}

/// What a conflict at the commit leads to: the next attempt, with all of the
/// charges, and after the fourth attempt the conflict itself.
pub proof fn lemma_commit_conflicts_are_retried(run: ChargeRun, err: KvsError, after: ChargeRun)
    requires
        run.attempt <= 4,
        run.retried(Some(err), after),
    ensures
        after.charges == run.charges,
        if run.attempt < 4 {
            after.phase is Begin && after.attempt == run.attempt + 1 && after.last_conflict == Some(
                err,
            )
        } else {
            after.phase == ChargePhase::Done(Err(err))
        },
        error::conflicting(err) <==> err !is Other,
{
}

/// A step from one phase to another keeps the batch, the number of the attempt
/// and the last conflict.
pub proof fn lemma_steps_keep_the_batch(run: ChargeRun, phase: ChargePhase, after: ChargeRun)
    requires
        run.moved(phase, after),
    ensures
        after.phase == phase,
        after.charges == run.charges,
        after.attempt == run.attempt,
        after.last_conflict == run.last_conflict,
{
}

} // verus!
