//! The rate limiter of a datastore: the plan cache and the pace of the sweeps.
use crate::cleanup;
use crate::cleanup::{Sweep, CLEANUP_INTERVAL};
use crate::duration::Duration;
use crate::hasher::BucketKeyHasher;
use std::collections::HashMap;
use std::sync::Arc;
use vstd::prelude::*;

verus! {

broadcast use vstd::std_specs::hash::group_hash_axioms;

/// Session values that a policy can be keyed by without evaluating an
/// expression.
#[derive(Clone, Copy, Debug, PartialEq, Eq, Hash, Structural)]
pub enum FastRatelimitBucket {
    Id,
    Ip,
    Ns,
    Db,
    Origin,
    Auth,
    Record,
    Token,
}

/// A policy, ready to be applied to a session.
pub struct CachedRatelimitPolicy {
    pub bucket: Option<FastRatelimitBucket>,
    /// Hash state pre-fed with the policy identity (ns, db, table, action,
    /// policy index). Cloned and extended with the session key per request.
    pub key_seed: BucketKeyHasher,
    pub limit: u64,
    pub period: Duration,
    pub max: Option<u64>,
}

impl Clone for CachedRatelimitPolicy {
    fn clone(&self) -> (policy: Self)
        ensures
            policy.bucket == self.bucket,
            policy.key_seed@ == self.key_seed@,
            policy.limit == self.limit,
            policy.period == self.period,
            policy.max == self.max,
    {
        CachedRatelimitPolicy {
            bucket: self.bucket,
            key_seed: self.key_seed.clone(),
            limit: self.limit,
            period: self.period,
            max: self.max,
        }
    }
}

/// Identity of a cached table plan, verified on every cache hit so that a
/// 64-bit cache-key collision can never apply another table's policies.
///
/// `schema_ts` is the table definition's stamp: every `DEFINE TABLE` writes a
/// fresh one, so a plan cached before a schema change (wherever it was made)
/// mismatches and is rebuilt.
#[derive(Debug, PartialEq, Eq)]
pub struct PlanIdentity {
    pub ns: String,
    pub db: String,
    pub table: String,
    pub action: String,
    pub schema_ts: u128,
}

impl Clone for PlanIdentity {
    fn clone(&self) -> (identity: Self)
        ensures
            identity == *self,
    {
        PlanIdentity {
            ns: self.ns.clone(),
            db: self.db.clone(),
            table: self.table.clone(),
            action: self.action.clone(),
            schema_ts: self.schema_ts,
        }
    }
}

/// What an identity says.
pub type PlanParts = (Seq<char>, Seq<char>, Seq<char>, Seq<char>, u128);

impl PlanIdentity {
    /// What the identity says.
    pub open spec fn parts(self) -> PlanParts {
        (self.ns@, self.db@, self.table@, self.action@, self.schema_ts)
    }

    /// Whether two identities are of the same plan.
    pub fn same(&self, other: &PlanIdentity) -> (b: bool)
        ensures
            b == (self.parts() == other.parts()),
    {
        self.ns == other.ns && self.db == other.db && self.table == other.table && self.action
            == other.action && self.schema_ts == other.schema_ts
    }
}

/// A plan in the cache.
pub struct CachedTableRatelimitPlan {
    pub identity: PlanIdentity,
    pub policies: Arc<Vec<CachedRatelimitPolicy>>,
}

/// Calls `Clone::clone` of `std::sync::Arc`, which makes another pointer to
/// the same value.
#[verifier::external_body]
fn share(policies: &Arc<Vec<CachedRatelimitPolicy>>) -> (shared: Arc<Vec<CachedRatelimitPolicy>>)
    ensures
        shared == *policies,
{
    Arc::clone(policies)
}

/// The rate limiter of a datastore.
pub struct RateLimiter {
    pub cleanup_counter: u64,
    /// Resume point for the incremental cleanup sweep. `None` restarts from
    /// the beginning of the bucket keyspace.
    pub cleanup_cursor: Option<Vec<u8>>,
    pub table_plans: HashMap<u64, CachedTableRatelimitPlan>,
}

impl Default for RateLimiter {
    fn default() -> (limiter: Self)
        ensures
            limiter.cleanup_counter == 0,
            limiter.cleanup_cursor is None,
            limiter.plans() == Map::<u64, (PlanParts, Arc<Vec<CachedRatelimitPolicy>>)>::empty(),
    {
        let limiter = RateLimiter {
            cleanup_counter: 0,
            cleanup_cursor: None,
            table_plans: HashMap::new(),
        };
        assert(limiter.plans() =~= Map::empty());
        limiter
    }
}

/// The count of charge batches after one more. It goes round when it overflows.
pub open spec fn next_count(count: u64) -> u64 {
    if count == u64::MAX {
        0
    } else {
        (count + 1) as u64
    }
}

/// Whether a sweep is due at a count of charge batches.
pub open spec fn is_due(count: u64) -> bool {
    count % CLEANUP_INTERVAL == 0
}

/// What the cache gives for a key and an identity.
pub open spec fn cached(limiter: RateLimiter, key: u64, identity: PlanIdentity) -> Option<
    Arc<Vec<CachedRatelimitPolicy>>,
> {
    if limiter.plans().dom().contains(key) && limiter.plans()[key].0 == identity.parts() {
        Some(limiter.plans()[key].1)
    } else {
        None
    }
}

impl RateLimiter {
    /// The cached plans, each with the identity that it was stored under.
    pub open spec fn plans(self) -> Map<u64, (PlanParts, Arc<Vec<CachedRatelimitPolicy>>)> {
        self.table_plans@.map_values(
            |plan: CachedTableRatelimitPlan| (plan.identity.parts(), plan.policies),
        )
    }

    /// The plan under a key, if it was stored under the same identity.
    pub fn cached_table_plan(&self, key: u64, identity: &PlanIdentity) -> (plan: Option<
        Arc<Vec<CachedRatelimitPolicy>>,
    >)
        ensures
            plan == cached(*self, key, *identity),
    {
        match self.table_plans.get(&key) {
            Some(plan) => if plan.identity.same(identity) {
                Some(share(&plan.policies))
            } else {
                None
            },
            None => None,
        }
    }

    /// Empties the plan cache.
    pub fn clear_table_plans(&mut self)
        ensures
            final(self).plans() == Map::<u64, (PlanParts, Arc<Vec<CachedRatelimitPolicy>>)>::empty(),
            final(self).cleanup_counter == old(self).cleanup_counter,
            final(self).cleanup_cursor == old(self).cleanup_cursor,
    {
        self.table_plans.clear();
        assert(self.plans() =~= Map::empty());
    }

    /// Puts a plan into the cache, in place of what was under its key.
    pub fn store_table_plan(
        &mut self,
        key: u64,
        identity: PlanIdentity,
        policies: Vec<CachedRatelimitPolicy>,
    ) -> (plan: Arc<Vec<CachedRatelimitPolicy>>)
        ensures
            *plan == policies,
            final(self).plans() == old(self).plans().insert(key, (identity.parts(), plan)),
            final(self).cleanup_counter == old(self).cleanup_counter,
            final(self).cleanup_cursor == old(self).cleanup_cursor,
    {
        let policies = Arc::new(policies);
        self.table_plans.insert(
            key,
            CachedTableRatelimitPlan { identity, policies: share(&policies) },
        );
        assert(self.plans() =~= old(self).plans().insert(key, (identity.parts(), policies)));
        policies
    }

    /// Starts a sweep, if one is due: once for every [`CLEANUP_INTERVAL`]
    /// charge batches, from where the last one left off.
    pub fn maybe_cleanup(&mut self) -> (sweep: Option<Sweep>)
        ensures
            final(self).cleanup_counter == next_count(old(self).cleanup_counter),
            final(self).plans() == old(self).plans(),
            if is_due(old(self).cleanup_counter) {
                &&& final(self).cleanup_cursor is None
                &&& sweep matches Some(sweep)
                &&& sweep.end@ == cleanup::rate_limit_end()
                &&& sweep.start@ == match old(self).cleanup_cursor {
                    Some(key) => key@,
                    None => crate::bucket::rate_limit_prefix(),
                }
            } else {
                sweep is None && final(self).cleanup_cursor == old(self).cleanup_cursor
            },
    {
        let count: u64 = self.cleanup_counter;
        self.cleanup_counter = count.wrapping_add(1);
        if count % CLEANUP_INTERVAL != 0 {
            return None;
        }
        Some(cleanup::sweep_from(self.cleanup_cursor.take()))
    }

    /// Takes note of where the next sweep resumes, once a sweep is committed.
    /// A sweep that fails tells nothing, so that the next one starts over.
    pub fn finish_cleanup(&mut self, next: Option<Vec<u8>>)
        ensures
            final(self).cleanup_cursor == next,
            final(self).cleanup_counter == old(self).cleanup_counter,
            final(self).plans() == old(self).plans(),
    {
        self.cleanup_cursor = next;
    }
}

/// A cached plan is only ever used for the identity that it was stored under,
/// whatever keys collide: right after a plan is stored, its key gives it back
/// for the same identity and nothing for any other, and the other keys give
/// what they gave before.
pub proof fn lemma_plan_is_for_its_identity(
    before: RateLimiter,
    after: RateLimiter,
    key: u64,
    identity: PlanIdentity,
    plan: Arc<Vec<CachedRatelimitPolicy>>,
    other_key: u64,
    asked: PlanIdentity,
)
    requires
        after.plans() == before.plans().insert(key, (identity.parts(), plan)),
    ensures
        cached(after, key, asked) == if asked.parts() == identity.parts() {
            Some(plan)
        } else {
            None
        },
        other_key != key ==> cached(after, other_key, asked) == cached(before, other_key, asked),
{
}

/// The count after a number of charge batches.
pub open spec fn count_after(count: u64, batches: nat) -> u64
    decreases batches,
{
    if batches == 0 {
        count
    } else {
        next_count(count_after(count, (batches - 1) as nat))
    }
}

/// There is a sweep for every 256 charge batches: wherever the count is, a sweep
/// is due at one of the next 256 batches and at no other of them. The first batch
/// of a new limiter brings one.
pub proof fn lemma_sweeps_are_regular(count: u64, batches: nat)
    ensures
        is_due(count) ==> (is_due(count_after(count, batches)) <==> batches % 256 == 0),
        is_due(count_after(count, batches)) <==> (count as int + batches) % 256 == 0,
        count_after(count, batches) == (count as int + batches) % 0x1_0000_0000_0000_0000,
        is_due(0),
    decreases batches,
{
    if batches > 0 {
        lemma_sweeps_are_regular(count, (batches - 1) as nat);
    }
}

/// An identity is of a plan only if all of its five parts are: the namespace,
/// the database, the table, the action and the stamp of the schema. Whatever of
/// these differs, the cache gives nothing.
pub proof fn lemma_identity_is_all_parts(limiter: RateLimiter, key: u64, a: PlanIdentity, b: PlanIdentity)
    ensures
        a.parts() == b.parts() <==> a.ns@ == b.ns@ && a.db@ == b.db@ && a.table@ == b.table@
            && a.action@ == b.action@ && a.schema_ts == b.schema_ts,
        cached(limiter, key, a) is Some && cached(limiter, key, b) is Some ==> a.ns@ == b.ns@
            && a.db@ == b.db@ && a.table@ == b.table@ && a.action@ == b.action@ && a.schema_ts
            == b.schema_ts,
{
}

} // verus!
