//! Resource governance: schema-defined rate limits and per-query budgets.
//!
//! Rate limits are token buckets whose state lives in a datastore. The
//! library decides what a charge comes to and what to ask of the datastore
//! next; it never waits for anything itself.

pub mod budget;
pub mod admission;
pub mod bucket;
pub mod bytes;
pub mod catalog;
pub mod charge;
pub mod cleanup;
pub mod clock;
pub mod double;
pub mod duration;
pub mod error;
pub mod hasher;
pub mod laws;
pub mod limiter;
pub mod margins;
pub mod meter;
pub mod ratelimit;
pub mod reading;
pub mod refund;
pub mod sql;
pub mod text;
pub mod usage;

pub use budget::{EnforcementMode, ResourceBudget, ResourceLimits};
pub use charge::ChargeOutcome;
pub use hasher::{BucketKey, BucketKeyHasher, StableHasher};
pub use limiter::{CachedRatelimitPolicy, FastRatelimitBucket, PlanIdentity, RateLimiter};
pub use meter::ScanRatelimitMeter;
pub use ratelimit::PendingCharge;
pub use usage::{ResourceKind, ResourceUsageSnapshot};
