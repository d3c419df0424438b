//! Spans of time.
use crate::double;
use vstd::arithmetic::power2::*;
use vstd::prelude::*;

verus! {

/// A span of time: whole seconds and the nanoseconds of the last one.
#[derive(Clone, Copy, Debug, PartialEq, Eq, Hash, Structural)]
pub struct Duration {
    secs: u64,
    nanos: u32,
}

/// The seconds of a span as a double: the whole seconds and the fraction are
/// converted on their own and then added.
pub open spec fn seconds(d: Duration) -> u64 {
    double::sum(
        double::of_int(d.secs() as nat),
        double::quotient(double::of_int(d.nanos() as nat), double::of_int(1_000_000_000)),
    )
}

/// The span of a number of nanoseconds below two to the power 64 seconds.
pub closed spec fn of_nanos(n: nat) -> Duration {
    Duration { secs: (n / 1_000_000_000) as u64, nanos: (n % 1_000_000_000) as u32 }
}

/// A span is known by its length.
pub proof fn lemma_of_nanos(n: nat)
    requires
        n < 1_000_000_000 * 0x1_0000_0000_0000_0000,
    ensures
        of_nanos(n).total_nanos() == n,
        of_nanos(n).valid(),
{
}

impl Duration {
    #[verifier::type_invariant]
    spec fn normal(self) -> bool {
        self.nanos < 1_000_000_000
    }

    /// The whole seconds.
    pub closed spec fn secs(self) -> u64 {
        self.secs
    }

    /// The nanoseconds beyond the whole seconds.
    pub closed spec fn nanos(self) -> u32 {
        self.nanos
    }

    /// The nanoseconds stay below one second, as they do in every span that a
    /// program can hold.
    pub open spec fn valid(self) -> bool {
        self.nanos() < 1_000_000_000
    }

    /// The length in nanoseconds.
    pub open spec fn total_nanos(self) -> nat {
        (self.secs() * 1_000_000_000 + self.nanos()) as nat
    }

    /// Two spans of the same length are the same.
    pub proof fn lemma_determined(a: Duration, b: Duration)
        requires
            a.secs() == b.secs(),
            a.nanos() == b.nanos(),
        ensures
            a == b,
    {
    }

    /// A span of whole seconds.
    pub fn from_secs(secs: u64) -> (d: Duration)
        ensures
            d.secs() == secs,
            d.nanos() == 0,
            d.valid(),
    {
        Duration { secs, nanos: 0 }
    }

    /// A span of seconds and nanoseconds, which must be less than a second.
    pub fn from_parts(secs: u64, nanos: u32) -> (d: Option<Duration>)
        ensures
            nanos < 1_000_000_000 <==> d is Some,
            d matches Some(d) ==> d.secs() == secs && d.nanos() == nanos && d.valid(),
    {
        if nanos < 1_000_000_000 {
            Some(Duration { secs, nanos })
        } else {
            None
        }
    }

    /// The whole seconds.
    pub fn as_secs(&self) -> (secs: u64)
        ensures
            secs == self.secs(),
    {
        self.secs
    }

    /// The nanoseconds beyond the whole seconds.
    pub fn subsec_nanos(&self) -> (nanos: u32)
        ensures
            nanos == self.nanos(),
            self.valid(),
    {
        proof {
            use_type_invariant(self);
        }
        self.nanos
    }

    /// Whether the span is empty.
    pub fn is_zero(&self) -> (b: bool)
        ensures
            b <==> self.total_nanos() == 0,
    {
        self.secs == 0 && self.nanos == 0
    }

    /// The length in whole milliseconds.
    pub fn as_millis(&self) -> (ms: u128)
        ensures
            ms == self.total_nanos() / 1_000_000,
    {
        self.secs as u128 * 1000 + self.nanos as u128 / 1_000_000
    }

    /// The length in seconds, as the bit pattern of a double.
    pub fn as_secs_double(&self) -> (b: u64)
        ensures
            b == seconds(*self),
    {
        proof {
            lemma_seconds_terms(*self);
        }
        let billion: u64 = double::from_u64(1_000_000_000);
        double::plus(
            double::from_u64(self.secs),
            double::divide(double::from_u64(self.nanos as u64), billion),
        )
    }

    /// The span nearest to a number of seconds that is given as the bit
    /// pattern of a double below two to the power 64.
    pub fn from_secs_double(b: u64) -> (d: Duration)
        requires
            b < 0x43f0_0000_0000_0000,
        ensures
            d == of_nanos(double::nanoseconds(b)),
            d.total_nanos() == double::nanoseconds(b),
            d.valid(),
    {
        let nanos: u128 = double::to_nanos(b);
        Duration { secs: (nanos / 1_000_000_000) as u64, nanos: (nanos % 1_000_000_000) as u32 }
    }
}

/// The doubles that make up a number of seconds are finite, and the divisor
/// is not zero.
pub proof fn lemma_seconds_terms(d: Duration)
    ensures
        double::of_int(d.secs() as nat) <= double::two_to(64),
        double::two_to(29) <= double::of_int(1_000_000_000) <= double::two_to(30),
        double::of_int(d.nanos() as nat) <= double::two_to(32),
        d.valid() ==> double::of_int(d.nanos() as nat) <= double::two_to(30),
        double::quotient(double::of_int(d.nanos() as nat), double::of_int(1_000_000_000))
            <= double::two_to(3),
{
    lemma2_to64();
    lemma2_to64_rest();
    double::lemma_of_int_bounds(d.secs() as nat, 64);
    double::lemma_of_int_bounds(1_000_000_000, 29);
    double::lemma_of_int_bounds(1_000_000_000, 30);
    double::lemma_of_int_bounds(d.nanos() as nat, 30);
    double::lemma_of_int_bounds(d.nanos() as nat, 32);
    double::lemma_quotient_bounds(
        double::of_int(d.nanos() as nat),
        double::of_int(1_000_000_000),
        32,
        29,
    );
}

/// The seconds of a span that is not empty lie between two to the power -30
/// and two to the power 65.
pub proof fn lemma_seconds_bounds(d: Duration)
    ensures
        seconds(d) <= double::two_to(65),
        d.total_nanos() > 0 ==> double::two_to(-30) <= seconds(d),
{
    lemma_seconds_terms(d);
    let whole = double::of_int(d.secs() as nat);
    let part = double::quotient(double::of_int(d.nanos() as nat), double::of_int(1_000_000_000));
    double::lemma_sum_bounds(whole, part, 64);
    lemma2_to64();
    double::lemma_of_int_bounds(d.secs() as nat, 0);
    double::lemma_of_int_bounds(d.nanos() as nat, 0);
    double::lemma_quotient_bounds(double::of_int(d.nanos() as nat), double::of_int(1_000_000_000), 0, 30);
}

} // verus!
