# gov

Resource governance, verified with Verus: schema-defined rate limits, enforced
by token buckets that are stored in a datastore, and budgets for single
queries.

- `src/` is the library. Every function in it is verified, but for the calls of
  the crates `blake3` and `web-time` and one pointer copy, which are declared
  with what they are trusted to do.
- `tests/` runs the library, with a datastore in memory and with the double
  arithmetic of the machine beside that of `src/double.rs`.
- `app/` carries the decisions out on an asynchronous datastore.

Where to start reading: `bucket.rs` (the stored state and its refill),
`ratelimit.rs` (what a charge comes to on one bucket), `charge.rs` (how a batch
is settled), `meter.rs` (how scanned rows are paid for), `cleanup.rs` (how
expired state is swept), `budget.rs`, and `sql.rs` (how a clause is written).
`laws.rs` and `margins.rs` hold what the parts promise together: what batches,
refunds and metered statements come to, and where rounding cannot matter.
Token counts are doubles; `double.rs` computes on their bit patterns, so that
what is stored is known to the last bit.
