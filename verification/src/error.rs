//! Errors.
use crate::duration::Duration;
use crate::text;
use vstd::prelude::*;

verus! {

/// Why a statement is refused.
#[derive(Debug, PartialEq, Eq)]
pub enum Error {
    /// A budget was exceeded.
    QueryResourceExceeded { resource: &'static str, limit: u64, used: u64 },
    /// A rate limit was exceeded.
    RateLimitExceeded {
        /// The policy that denied.
        scope: String,
        /// How long to wait, or nothing where waiting does not help.
        retry_after: Option<Duration>,
    },
}

impl Error {
    /// What the error says.
    pub open spec fn text(self) -> Seq<char> {
        match self {
            Error::QueryResourceExceeded { resource, limit, used } => {
                "The query exceeded its limit of "@ + text::decimal(limit as nat) + " "@ + resource@
                    + ": "@ + text::decimal(used as nat) + " used"@
            },
            Error::RateLimitExceeded { scope, retry_after } => {
                "The rate limit of "@ + scope@ + " was exceeded"@ + match retry_after {
                    Some(wait) => ", retry after "@ + text::span(wait),
                    None => Seq::empty(),
                }
            },
        }
    }

    /// The error in words.
    pub fn message(&self) -> (out: String)
        ensures
            out@ == self.text(),
    {
        let mut out = String::new();
        match self {
            Error::QueryResourceExceeded { resource, limit, used } => {
                out.append("The query exceeded its limit of ");
                text::push_decimal(&mut out, *limit);
                out.append(" ");
                out.append(resource);
                out.append(": ");
                text::push_decimal(&mut out, *used);
                out.append(" used");
            },
            Error::RateLimitExceeded { scope, retry_after } => {
                out.append("The rate limit of ");
                out.append(scope.as_str());
                out.append(" was exceeded");
                if let Some(wait) = retry_after {
                    out.append(", retry after ");
                    text::push_span(&mut out, wait);
                }
            },
        }
        assert(out@ =~= self.text());
        out
    }
}

/// What the datastore answers when it cannot do as asked.
#[derive(Debug, PartialEq, Eq)]
pub enum KvsError {
    /// Another transaction got in the way.
    TransactionConflict(String),
    /// A conditional write found something else than it expected.
    TransactionConditionNotMet,
    /// Anything else.
    Other(String),
}

/// Whether an error says that another transaction got in the way, so that the
/// work can be tried again.
pub open spec fn conflicting(err: KvsError) -> bool {
    err is TransactionConflict || err is TransactionConditionNotMet
}

/// Tests for an optimistic conflict.
pub fn is_conflict(err: &KvsError) -> (b: bool)
    ensures
        b == conflicting(*err),
{
    matches!(err, KvsError::TransactionConflict(_) | KvsError::TransactionConditionNotMet)
}

/// What a conditional write came to: whether it was done, where it was
/// answered by nothing worse than a condition that was not met.
pub fn put_bucket(reply: Result<(), KvsError>) -> (done: Result<bool, KvsError>)
    ensures
        done == match reply {
            Ok(()) => Ok(true),
            Err(KvsError::TransactionConditionNotMet) => Ok(false),
            Err(err) => Err::<bool, KvsError>(err),
        },
{
    match reply {
        Ok(()) => Ok(true),
        Err(KvsError::TransactionConditionNotMet) => Ok(false),
        Err(err) => Err(err),
    }
}

} // verus!
