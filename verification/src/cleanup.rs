//! The incremental sweep of expired bucket state.
use crate::admission;
use crate::bucket;
use vstd::prelude::*;

verus! {

/// How many admissions pass between piggybacked cleanup sweeps.
pub const CLEANUP_INTERVAL: u64 = 256;

/// How many bucket keys a single cleanup sweep inspects.
pub const CLEANUP_BATCH: u32 = 64;

/// A part of the bucket keyspace to scan: from `start` on, short of `end`,
/// the first [`CLEANUP_BATCH`] keys.
#[derive(Debug, PartialEq, Eq)]
pub struct Sweep {
    pub start: Vec<u8>,
    pub end: Vec<u8>,
}

/// What a sweep does with what it has scanned.
#[derive(Debug, PartialEq, Eq)]
pub struct SweepPlan {
    /// The keys to delete.
    pub delete: Vec<Vec<u8>>,
    /// Where the next sweep resumes. `None` restarts from the beginning of
    /// the bucket keyspace.
    pub next: Option<Vec<u8>>,
}

/// The order of keys: byte by byte, a prefix before what it is a prefix of.
pub open spec fn key_before(a: Seq<u8>, b: Seq<u8>) -> bool
    decreases a.len(),
{
    if b.len() == 0 {
        false
    } else if a.len() == 0 {
        true
    } else if a[0] == b[0] {
        key_before(a.drop_first(), b.drop_first())
    } else {
        a[0] < b[0]
    }
}

/// The end of the bucket keyspace: `/!rm`, the first key that is after every
/// key that starts with `/!rl`.
pub open spec fn rate_limit_end() -> Seq<u8> {
    seq![0x2f, 0x21, 0x72, 0x6d]
}

/// Whether stored bytes are of no more use: they do not decode, or what they
/// hold has expired.
pub open spec fn is_stale(value: Seq<u8>, now_ms: u64) -> bool {
    match bucket::decoding(value) {
        Some(bucket) => bucket.expires_at_ms <= now_ms,
        None => true,
    }
}

/// The bytes of keys.
pub open spec fn bytes_of_all(keys: Seq<Vec<u8>>) -> Seq<Seq<u8>> {
    Seq::new(keys.len(), |i: int| keys[i]@)
}

/// The keys of stale entries, in their order.
pub open spec fn stale_keys(scan: Seq<(Vec<u8>, Vec<u8>)>, now_ms: u64) -> Seq<Seq<u8>>
    decreases scan.len(),
{
    if scan.len() == 0 {
        Seq::empty()
    } else {
        let front = stale_keys(scan.drop_last(), now_ms);
        if is_stale(scan.last().1@, now_ms) {
            front.push(scan.last().0@)
        } else {
            front
        }
    }
}

/// Where the next sweep resumes: right behind the last key of a full batch,
/// and else at the beginning.
pub open spec fn resume_point(scan: Seq<(Vec<u8>, Vec<u8>)>) -> Option<Seq<u8>> {
    if scan.len() == CLEANUP_BATCH {
        Some(scan.last().0@.push(0x00))
    } else {
        None
    }
}

/// The part of the keyspace that a sweep from a resume point covers.
pub fn sweep_from(cursor: Option<Vec<u8>>) -> (sweep: Sweep)
    ensures
        sweep.start@ == match cursor {
            Some(key) => key@,
            None => bucket::rate_limit_prefix(),
        },
        sweep.end@ == rate_limit_end(),
{
    let start = match cursor {
        Some(key) => key,
        None => bucket::rate_limit_start(),
    };
    let end: Vec<u8> = vec![0x2f, 0x21, 0x72, 0x6d];
    assert(end@ =~= rate_limit_end());
    Sweep { start, end }
}

/// Decides what to do with scanned entries.
pub fn plan_sweep(scan: Vec<(Vec<u8>, Vec<u8>)>, now_ms: u64) -> (plan: SweepPlan)
    ensures
        bytes_of_all(plan.delete@) == stale_keys(scan@, now_ms),
        match plan.next {
            Some(key) => resume_point(scan@) == Some(key@),
            None => resume_point(scan@) is None,
        },
{
    let mut delete: Vec<Vec<u8>> = Vec::new();
    let mut next: Option<Vec<u8>> = None;
    let full_batch = scan.len() == CLEANUP_BATCH as usize;
    let mut i: usize = 0;
    while i < scan.len()
        invariant
            i <= scan@.len(),
            bytes_of_all(delete@) == stale_keys(scan@.subrange(0, i as int), now_ms),
            i > 0 ==> (next matches Some(key) && key@ == scan@[i - 1].0@),
        decreases scan@.len() - i,
    {
        let ghost upto = scan@.subrange(0, i + 1);
        assert(upto.drop_last() =~= scan@.subrange(0, i as int));
        let stale = match bucket::decode_bucket(scan[i].1.as_slice()) {
            Some(bucket) => bucket.expires_at_ms <= now_ms,
            None => true,
        };
        let ghost before = delete@;
        if stale {
            delete.push(copy_key(&scan[i].0));
        }
        assert(stale ==> bytes_of_all(delete@) =~= bytes_of_all(before).push(scan@[i as int].0@));
        next = Some(copy_key(&scan[i].0));
        i = i + 1;
    }
    assert(scan@.subrange(0, i as int) =~= scan@);
    let next = if full_batch {
        match next {
            Some(mut key) => {
                key.push(0x00);
                Some(key)
            },
            None => None,
        }
    } else {
        None
    };
    SweepPlan { delete, next }
}

/// A copy of a key.
fn copy_key(key: &Vec<u8>) -> (copy: Vec<u8>)
    ensures
        copy@ == key@,
{
    let copy = key.clone();
    assert(copy@ =~= key@);
    copy
}

/// The resume point is the very next key: nothing lies between the last key
/// of a batch and the start of the next sweep.
pub proof fn lemma_resume_is_next(last: Seq<u8>, key: Seq<u8>)
    ensures
        key_before(last, key) <==> !key_before(key, last.push(0x00)),
    decreases last.len(),
{
    let next = last.push(0x00);
    if key.len() > 0 && last.len() > 0 && last[0] == key[0] {
        lemma_resume_is_next(last.drop_first(), key.drop_first());
        assert(next.drop_first() =~= last.drop_first().push(0x00));
    } else if key.len() > 0 && last.len() == 0 {
        assert(!key_before(key.drop_first(), next.drop_first()));
    }
}

/// A key is not before itself, and the order goes on over a middle key.
proof fn lemma_key_order(a: Seq<u8>, b: Seq<u8>, c: Seq<u8>)
    ensures
        !key_before(a, a),
        key_before(a, b) && key_before(b, c) ==> key_before(a, c),
    decreases a.len(),
{
    if a.len() > 0 {
        let b1 = if b.len() > 0 {
            b.drop_first()
        } else {
            b
        };
        let c1 = if c.len() > 0 {
            c.drop_first()
        } else {
            c
        };
        lemma_key_order(a.drop_first(), b1, c1);
    }
}

/// Every stored bucket lies in the keyspace that a sweep covers.
pub proof fn lemma_buckets_are_covered(key: crate::hasher::BucketKey)
    ensures
        !key_before(bucket::stored_at(key), bucket::rate_limit_prefix()),
        key_before(bucket::stored_at(key), rate_limit_end()),
{
    reveal_with_fuel(key_before, 5);
}

/// The order of keys in the datastore.
pub open spec fn in_order(keys: Seq<Seq<u8>>) -> bool {
    forall|i: int, j: int| 0 <= i < j < keys.len() ==> #[trigger] key_before(keys[i], keys[j])
}

/// Of keys that are in order, a scan from `start` begins with the one at `p`.
pub open spec fn stands_at(keys: Seq<Seq<u8>>, start: Seq<u8>, p: int) -> bool {
    &&& 0 <= p <= keys.len()
    &&& forall|i: int| 0 <= i < p ==> key_before(#[trigger] keys[i], start)
    &&& forall|i: int| p <= i < keys.len() ==> !key_before(#[trigger] keys[i], start)
}

/// The cursor rotates: a sweep that has scanned a full batch hands over to
/// one that goes on with the very next key, and one that has not has come to
/// the end, so that no key is passed over, however long those before it live.
pub proof fn lemma_sweeps_rotate(
    keys: Seq<Seq<u8>>,
    start: Seq<u8>,
    p: int,
    scan: Seq<(Vec<u8>, Vec<u8>)>,
)
    requires
        in_order(keys),
        stands_at(keys, start, p),
        scan.len() == if p + CLEANUP_BATCH <= keys.len() {
            CLEANUP_BATCH as int
        } else {
            keys.len() - p
        },
        forall|i: int| 0 <= i < scan.len() ==> (#[trigger] scan[i]).0@ == keys[p + i],
    ensures
        match resume_point(scan) {
            Some(next) => stands_at(keys, next, p + CLEANUP_BATCH),
            None => p + scan.len() == keys.len(),
        },
{
    if scan.len() == CLEANUP_BATCH {
        let q = p + CLEANUP_BATCH;
        let last = keys[q - 1];
        assert(scan.last().0@ == last);
        let next = last.push(0x00);
        assert forall|i: int| 0 <= i < q implies key_before(#[trigger] keys[i], next) by {
            lemma_resume_is_next(last, keys[i]);
            if i < q - 1 {
                assert(key_before(keys[i], keys[q - 1]));
                lemma_key_order(keys[i], last, keys[i]);
            }
            lemma_key_order(keys[i], last, last);
        }
        assert forall|i: int| q <= i < keys.len() implies !key_before(
            #[trigger] keys[i],
            next,
        ) by {
            assert(key_before(keys[q - 1], keys[i]));
            lemma_resume_is_next(last, keys[i]);
        }
    }
}

/// A sweep from `start` scans the first entries of the keyspace as it is then.
/// Whatever else is stored comes from `keys`; the key `key` is stored then, so
/// it is among what is scanned if it lies in the part that is.
pub open spec fn scans(
    keys: Seq<Seq<u8>>,
    key: Seq<u8>,
    start: Seq<u8>,
    scan: Seq<(Vec<u8>, Vec<u8>)>,
) -> bool {
    &&& scan.len() <= CLEANUP_BATCH
    &&& forall|j: int|
        0 <= j < scan.len() ==> keys.contains((#[trigger] scan[j]).0@) && !key_before(
            scan[j].0@,
            start,
        )
    &&& forall|i: int, j: int|
        0 <= i < j < scan.len() ==> key_before((#[trigger] scan[i]).0@, (#[trigger] scan[j]).0@)
    &&& !key_before(key, start) && (scan.len() < CLEANUP_BATCH || !key_before(scan.last().0@, key))
        ==> has_key(scan, key)
}

/// An entry under a key is among what was scanned.
pub open spec fn has_key(scan: Seq<(Vec<u8>, Vec<u8>)>, key: Seq<u8>) -> bool {
    exists|j: int| 0 <= j < scan.len() && (#[trigger] scan[j]).0@ == key
}

/// Where the sweep after one starts.
pub open spec fn next_start(scan: Seq<(Vec<u8>, Vec<u8>)>) -> Seq<u8> {
    match resume_point(scan) {
        Some(next) => next,
        None => bucket::rate_limit_prefix(),
    }
}

/// How many of some keys are before a place.
spec fn passed(keys: Seq<Seq<u8>>, start: Seq<u8>) -> nat
    decreases keys.len(),
{
    if keys.len() == 0 {
        0
    } else {
        passed(keys.drop_last(), start) + if key_before(keys.last(), start) {
            1nat
        } else {
            0nat
        }
    }
}

proof fn lemma_passed(keys: Seq<Seq<u8>>, start: Seq<u8>)
    requires
        in_order(keys),
    ensures
        stands_at(keys, start, passed(keys, start) as int),
    decreases keys.len(),
{
    if keys.len() > 0 {
        let front = keys.drop_last();
        assert forall|i: int, j: int| 0 <= i < j < front.len() implies #[trigger] key_before(
            front[i],
            front[j],
        ) by {
            assert(key_before(keys[i], keys[j]));
        }
        lemma_passed(front, start);
        let p = passed(front, start) as int;
        let n = front.len() as int;
        if key_before(keys.last(), start) && p < n {
            assert(key_before(keys[p], keys[n]));
            lemma_key_order(keys[p], keys[n], start);
            assert(!key_before(front[p], start));
        }
        assert forall|i: int| 0 <= i < n implies keys[i] == #[trigger] front[i] by {}
        assert forall|i: int| 0 <= i < passed(keys, start) implies key_before(
            #[trigger] keys[i],
            start,
        ) by {
            if i < n {
                assert(keys[i] == front[i]);
            }
        }
        assert forall|i: int| passed(keys, start) <= i < keys.len() implies !key_before(
            #[trigger] keys[i],
            start,
        ) by {
            if i < n {
                assert(keys[i] == front[i]);
            }
        }
    }
}

/// The entries of a scan are at ever later places of the keys.
proof fn lemma_scan_places(
    keys: Seq<Seq<u8>>,
    key: Seq<u8>,
    start: Seq<u8>,
    scan: Seq<(Vec<u8>, Vec<u8>)>,
    j: int,
) -> (at: int)
    requires
        in_order(keys),
        scans(keys, key, start, scan),
        0 <= j < scan.len(),
    ensures
        0 <= at < keys.len(),
        keys[at] == scan[j].0@,
        passed(keys, start) + j <= at,
    decreases j,
{
    lemma_passed(keys, start);
    assert(keys.contains(scan[j].0@));
    let at = choose|at: int| 0 <= at < keys.len() && keys[at] == scan[j].0@;
    if j > 0 {
        let before = lemma_scan_places(keys, key, start, scan, j - 1);
        assert(key_before(scan[j - 1].0@, scan[j].0@));
        lemma_key_order(keys[at], keys[before], keys[at]);
        if at < before {
            assert(key_before(keys[at], keys[before]));
        }
    }
    at
}

/// A full batch moves the cursor on by as many keys.
proof fn lemma_cursor_moves(
    keys: Seq<Seq<u8>>,
    key: Seq<u8>,
    start: Seq<u8>,
    scan: Seq<(Vec<u8>, Vec<u8>)>,
)
    requires
        in_order(keys),
        scans(keys, key, start, scan),
        scan.len() == CLEANUP_BATCH,
    ensures
        passed(keys, start) + CLEANUP_BATCH <= passed(keys, next_start(scan)) <= keys.len(),
{
    let next = next_start(scan);
    let last = scan.last().0@;
    let at = lemma_scan_places(keys, key, start, scan, CLEANUP_BATCH - 1);
    lemma_passed(keys, next);
    lemma_resume_is_next(last, last);
    lemma_key_order(last, last, last);
    assert(key_before(keys[at], next));
}

/// From a place that is not behind a key the cursor gets to the key.
proof fn lemma_key_is_reached_ahead(
    keys: Seq<Seq<u8>>,
    at: int,
    starts: Seq<Seq<u8>>,
    sweeps: Seq<Seq<(Vec<u8>, Vec<u8>)>>,
    k: int,
)
    requires
        in_order(keys),
        0 <= at < keys.len(),
        rotation(keys, keys[at], starts, sweeps),
        0 <= k,
        !key_before(keys[at], starts[k]),
        k + (at - passed(keys, starts[k])) / (CLEANUP_BATCH as int) < sweeps.len(),
        k < sweeps.len(),
    ensures
        exists|m: int| 0 <= m < sweeps.len() && has_key(#[trigger] sweeps[m], keys[at]),
    decreases sweeps.len() - k,
{
    let key = keys[at];
    lemma_passed(keys, starts[k]);
    assert(scans(keys, key, starts[k], sweeps[k]));
    if !has_key(sweeps[k], key) {
        lemma_cursor_moves(keys, key, starts[k], sweeps[k]);
        let next = next_start(sweeps[k]);
        lemma_resume_is_next(sweeps[k].last().0@, key);
        lemma_passed(keys, next);
        let p = passed(keys, starts[k]) as int;
        let q = passed(keys, next) as int;
        assert(q <= at);
        assert(k + 1 < sweeps.len());
        assert(starts[k + 1] == next);
        assert(k + 1 + (at - q) / 64 <= k + (at - p) / 64);
        lemma_key_is_reached_ahead(keys, at, starts, sweeps, k + 1);
    }
}

/// Sweeps that follow each other: each one starts where the one before it said.
pub open spec fn rotation(
    keys: Seq<Seq<u8>>,
    key: Seq<u8>,
    starts: Seq<Seq<u8>>,
    sweeps: Seq<Seq<(Vec<u8>, Vec<u8>)>>,
) -> bool {
    &&& starts.len() == sweeps.len()
    &&& forall|k: int|
        0 <= k < sweeps.len() ==> scans(keys, key, #[trigger] starts[k], sweeps[k])
    &&& forall|k: int|
        0 <= k < sweeps.len() - 1 ==> #[trigger] starts[k + 1] == next_start(sweeps[k])
}

proof fn lemma_key_is_reached_from(
    keys: Seq<Seq<u8>>,
    at: int,
    starts: Seq<Seq<u8>>,
    sweeps: Seq<Seq<(Vec<u8>, Vec<u8>)>>,
    k: int,
)
    requires
        in_order(keys),
        0 <= at < keys.len(),
        !key_before(keys[at], bucket::rate_limit_prefix()),
        rotation(keys, keys[at], starts, sweeps),
        0 <= k,
        k + (keys.len() - passed(keys, starts[k])) / (CLEANUP_BATCH as int) + 1 + at as int / (
        CLEANUP_BATCH as int) < sweeps.len(),
        k < sweeps.len(),
    ensures
        exists|m: int| 0 <= m < sweeps.len() && has_key(#[trigger] sweeps[m], keys[at]),
    decreases sweeps.len() - k,
{
    let key = keys[at];
    lemma_passed(keys, starts[k]);
    let p = passed(keys, starts[k]) as int;
    if !key_before(key, starts[k]) {
        assert((at - p) / 64 <= (keys.len() - p) / 64);
        lemma_key_is_reached_ahead(keys, at, starts, sweeps, k);
    } else {
        let next = next_start(sweeps[k]);
        assert(k + 1 < sweeps.len());
        assert(starts[k + 1] == next);
        assert(scans(keys, key, starts[k], sweeps[k]));
        lemma_passed(keys, next);
        let q = passed(keys, next) as int;
        if sweeps[k].len() == CLEANUP_BATCH {
            lemma_cursor_moves(keys, key, starts[k], sweeps[k]);
            assert((keys.len() - q) / 64 + 1 <= (keys.len() - p) / 64);
            lemma_key_is_reached_from(keys, at, starts, sweeps, k + 1);
        } else {
            assert((at - q) / 64 <= at / 64);
            lemma_key_is_reached_ahead(keys, at, starts, sweeps, k + 1);
        }
    }
}

/// The whole bucket keyspace is swept in the end: wherever the cursor is, and
/// whatever comes and goes among the other keys, a bucket that stays is scanned
/// after no more sweeps than two rotations over all the keys take.
pub proof fn lemma_every_key_is_reached(
    keys: Seq<Seq<u8>>,
    key: crate::hasher::BucketKey,
    starts: Seq<Seq<u8>>,
    sweeps: Seq<Seq<(Vec<u8>, Vec<u8>)>>,
)
    requires
        in_order(keys),
        keys.contains(bucket::stored_at(key)),
        rotation(keys, bucket::stored_at(key), starts, sweeps),
        sweeps.len() >= 2 * (keys.len() as int / (CLEANUP_BATCH as int)) + 2,
    ensures
        exists|m: int|
            0 <= m < sweeps.len() && has_key(#[trigger] sweeps[m], bucket::stored_at(key)),
{
    let name = bucket::stored_at(key);
    let at = choose|at: int| 0 <= at < keys.len() && keys[at] == name;
    lemma_buckets_are_covered(key);
    lemma_passed(keys, starts[0]);
    let n = keys.len() as int;
    let p = passed(keys, starts[0]) as int;
    assert((n - p) / 64 <= n / 64);
    assert(at / 64 <= n / 64);
    lemma_key_is_reached_from(keys, at, starts, sweeps, 0);
}

/// What a sweep deletes of what it has scanned is just what is stale.
pub proof fn lemma_stale_is_deleted(scan: Seq<(Vec<u8>, Vec<u8>)>, now_ms: u64, key: Seq<u8>)
    ensures
        stale_keys(scan, now_ms).contains(key) <==> exists|j: int|
            0 <= j < scan.len() && (#[trigger] scan[j]).0@ == key && is_stale(scan[j].1@, now_ms),
    decreases scan.len(),
{
    if scan.len() > 0 {
        let front = scan.drop_last();
        let n = front.len() as int;
        lemma_stale_is_deleted(front, now_ms, key);
        let all = stale_keys(scan, now_ms);
        let some = stale_keys(front, now_ms);
        if some.contains(key) {
            let i = choose|i: int| 0 <= i < some.len() && some[i] == key;
            assert(all[i] == key);
            let j = choose|j: int|
                0 <= j < front.len() && (#[trigger] front[j]).0@ == key && is_stale(
                    front[j].1@,
                    now_ms,
                );
            assert(scan[j] == front[j]);
        }
        if is_stale(scan[n].1@, now_ms) && scan[n].0@ == key {
            assert(all[some.len() as int] == key);
        }
        if exists|j: int|
            0 <= j < scan.len() && (#[trigger] scan[j]).0@ == key && is_stale(scan[j].1@, now_ms) {
            let j = choose|j: int|
                0 <= j < scan.len() && (#[trigger] scan[j]).0@ == key && is_stale(
                    scan[j].1@,
                    now_ms,
                );
            if j < n {
                assert(front[j] == scan[j]);
            }
        }
        if all.contains(key) && !some.contains(key) {
            let i = choose|i: int| 0 <= i < all.len() && all[i] == key;
            assert(i == some.len());
            assert(scan[n].0@ == key);
        }
    }
}

/// A sweep takes nothing from anybody: a charge comes to the same on what it
/// deletes as on a bucket without state, from the time of the sweep on.
pub proof fn lemma_sweep_is_harmless(
    charge: crate::ratelimit::PendingCharge,
    value: Seq<u8>,
    swept_ms: u64,
    now_ms: u64,
)
    requires
        is_stale(value, swept_ms),
        swept_ms <= now_ms,
    ensures
        charge.verdict(now_ms, Some(value)) == charge.verdict(now_ms, None),
{
}

/// What a sweep deletes, by the bytes that it has scanned: the key of every
/// entry that is not 25 bytes of a version that can be read, or whose last
/// eight bytes are a time that has come, and of no other entry, whatever tokens
/// and whatever refill time it holds.
pub proof fn lemma_expired_is_deleted(scan: Seq<(Vec<u8>, Vec<u8>)>, now_ms: u64, key: Seq<u8>)
    ensures
        stale_keys(scan, now_ms).contains(key) <==> exists|j: int|
            0 <= j < scan.len() && (#[trigger] scan[j]).0@ == key && (!admission::readable(
                scan[j].1@,
            ) || admission::field(scan[j].1@, 17) <= now_ms),
{
    lemma_stale_is_deleted(scan, now_ms, key);
    assert forall|j: int| 0 <= j < scan.len() implies is_stale((#[trigger] scan[j]).1@, now_ms) == (
    !admission::readable(scan[j].1@) || admission::field(scan[j].1@, 17) <= now_ms) by {
        admission::lemma_reading_is_by_bytes(scan[j].1@);
    }
}

/// A sweep deletes in the order of its scan, and each entry at most once: where
/// the scanned keys are in order, so are those to delete.
pub proof fn lemma_deletion_is_in_order(scan: Seq<(Vec<u8>, Vec<u8>)>, now_ms: u64)
    requires
        forall|i: int, j: int|
            0 <= i < j < scan.len() ==> key_before((#[trigger] scan[i]).0@, (#[trigger] scan[j]).0@),
    ensures
        in_order(stale_keys(scan, now_ms)),
        stale_keys(scan, now_ms).len() <= scan.len(),
    decreases scan.len(),
{
    if scan.len() > 0 {
        let front = scan.drop_last();
        let n = front.len() as int;
        lemma_deletion_is_in_order(front, now_ms);
        let some = stale_keys(front, now_ms);
        let all = stale_keys(scan, now_ms);
        assert forall|i: int, j: int| 0 <= i < j < all.len() implies #[trigger] key_before(
            all[i],
            all[j],
        ) by {
            if j < some.len() {
                assert(key_before(some[i], some[j]));
            } else {
                assert(some.contains(some[i]));
                lemma_stale_is_deleted(front, now_ms, some[i]);
                let k = choose|k: int|
                    0 <= k < front.len() && (#[trigger] front[k]).0@ == some[i] && is_stale(
                        front[k].1@,
                        now_ms,
                    );
                assert(key_before(scan[k].0@, scan[n].0@));
            }
        }
    }
}

/// A sweep deletes just the state that no charge has any use for: where an
/// entry is kept, its tokens are reckoned with, and where it is deleted, every
/// charge takes its value for a bucket without state.
pub proof fn lemma_deleted_is_no_state(value: Seq<u8>, now_ms: u64)
    ensures
        is_stale(value, now_ms) <==> !admission::in_force(Some(value), now_ms),
        is_stale(value, now_ms) ==> forall|charge: crate::ratelimit::PendingCharge|
            #[trigger] charge.verdict(now_ms, Some(value)) == charge.verdict(now_ms, None),
{
    admission::lemma_reading_is_by_bytes(value);
    if is_stale(value, now_ms) {
        assert forall|charge: crate::ratelimit::PendingCharge|
            #[trigger] charge.verdict(now_ms, Some(value)) == charge.verdict(now_ms, None) by {
            lemma_sweep_is_harmless(charge, value, now_ms, now_ms);
        }
    }
}

/// The keyspace that sweeps cover holds the keys that start with `/!rl`, and
/// no others: nothing else in the datastore is ever looked at or deleted.
pub proof fn lemma_only_buckets_are_covered(key: Seq<u8>)
    ensures
        !key_before(key, bucket::rate_limit_prefix()) && key_before(key, rate_limit_end())
            <==> key.len() >= 4 && key[0] == 0x2f && key[1] == 0x21 && key[2] == 0x72 && key[3]
            == 0x6c,
{
    reveal_with_fuel(key_before, 6);
    let k1 = key.drop_first();
    let k2 = k1.drop_first();
    let k3 = k2.drop_first();
    let p = bucket::rate_limit_prefix();
    let e = rate_limit_end();
    assert(key_before(key, p) == key_before(key, seq![0x2f, 0x21, 0x72, 0x6c]));
    if key.len() >= 4 {
        assert(k1[0] == key[1]);
        assert(k2[0] == key[2]);
        assert(k3[0] == key[3]);
    }
}

/// A sweep that has scanned 64 entries is followed by one that goes on right
/// behind the last of them, whatever they hold. Any other sweep is followed by
/// one from the start.
pub proof fn lemma_full_batches_go_on(scan: Seq<(Vec<u8>, Vec<u8>)>, key: Seq<u8>)
    ensures
        resume_point(scan) is Some <==> scan.len() == 64,
        resume_point(scan) matches Some(next) ==> (key_before(key, next) <==> !key_before(
            scan[63].0@,
            key,
        )),
{
    if scan.len() == 64 {
        lemma_resume_is_next(scan[63].0@, key);
    }
}

} // verus!
