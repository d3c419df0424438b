//! Budgets: limits on what one admitted unit of work may use.
use crate::error::Error;
use crate::usage;
use crate::usage::{ResourceKind, ResourceUsageSnapshot, RESOURCE_COUNT};
use vstd::prelude::*;

verus! {

/// Stands for a budget that was not truncated.
const NO_TRUNCATION: u64 = u64::MAX;

/// What a charge that may be truncated comes to.
#[derive(Clone, Copy, Debug, PartialEq, Eq, Structural)]
pub enum ChargeOutcome {
    Charged,
    /// The charge crossed an enforced limit while truncation was allowed. The
    /// second field is how many units from this charge were still within the
    /// limit and may be processed before stopping.
    Truncated(ResourceKind, u64),
}

/// Whether a resource budget is disabled, observing, or enforcing limits.
#[derive(Clone, Copy, Debug, PartialEq, Eq, Structural)]
pub enum EnforcementMode {
    Disabled,
    Monitor,
    Enforce,
}

/// Per-resource limits for a query or action budget.
#[derive(Clone, Copy, Debug, PartialEq, Eq)]
pub struct ResourceLimits {
    limits: [Option<u64>; RESOURCE_COUNT],
}

impl View for ResourceLimits {
    type V = spec_fn(ResourceKind) -> Option<u64>;

    /// The limit of each kind.
    closed spec fn view(&self) -> spec_fn(ResourceKind) -> Option<u64> {
        |kind: ResourceKind| self.limits@[usage::place(kind)]
    }
}

impl Default for ResourceLimits {
    /// No limits.
    fn default() -> (limits: Self)
        ensures
            forall|kind: ResourceKind| #[trigger] limits@(kind) is None,
    {
        ResourceLimits { limits: [None; RESOURCE_COUNT] }
    }
}

impl ResourceLimits {
    /// The limits with that of one kind set.
    pub fn with_limit(self, kind: ResourceKind, limit: u64) -> (limits: Self)
        ensures
            forall|k: ResourceKind|
                #[trigger] limits@(k) == if k == kind {
                    Some(limit)
                } else {
                    self@(k)
                },
    {
        let mut limits = self;
        limits.limits[kind.index()] = Some(limit);
        assert forall|k: ResourceKind| #[trigger] limits@(k) == if k == kind {
            Some(limit)
        } else {
            self@(k)
        } by {
            if usage::place(k) == usage::place(kind) {
                usage::lemma_place_injective(k, kind);
            }
        }
        limits
    }

    /// The limit of a kind.
    pub fn limit(&self, kind: ResourceKind) -> (limit: Option<u64>)
        ensures
            limit == self@(kind),
    {
        self.limits[kind.index()]
    }
}

/// Budget and usage counter for one admitted unit of work.
#[derive(Debug)]
pub struct ResourceBudget {
    mode: EnforcementMode,
    limits: ResourceLimits,
    usage: [u64; RESOURCE_COUNT],
    truncated: u64,
    truncation_allowed: bool,
}

/// The kind that a truncation index stands for.
pub open spec fn kind_at(index: u64, kind: Option<ResourceKind>) -> bool {
    match kind {
        Some(kind) => usage::place(kind) == index,
        None => index >= RESOURCE_COUNT,
    }
}

/// The usage after a charge: the counters go round when they overflow.
pub open spec fn counted(used: u64, amount: u64) -> u64 {
    if used + amount <= u64::MAX {
        (used + amount) as u64
    } else {
        (used + amount - u64::MAX - 1) as u64
    }
}

/// What a charge is held against: the usage with it, as far as it can be
/// written.
pub open spec fn reached(used: u64, amount: u64) -> u64 {
    if used + amount <= u64::MAX {
        (used + amount) as u64
    } else {
        u64::MAX
    }
}

impl ResourceBudget {
    #[verifier::type_invariant]
    spec fn proper(self) -> bool {
        self.truncated < RESOURCE_COUNT || self.truncated == NO_TRUNCATION
    }

    /// How the budget deals with its limits.
    pub closed spec fn how(self) -> EnforcementMode {
        self.mode
    }

    /// The limit of a kind.
    pub closed spec fn bound(self, kind: ResourceKind) -> Option<u64> {
        self.limits@(kind)
    }

    /// How much of a kind was used.
    pub closed spec fn used(self, kind: ResourceKind) -> u64 {
        self.usage@[usage::place(kind)]
    }

    /// The kind that the work was truncated on.
    pub closed spec fn cut(self) -> Option<ResourceKind> {
        if self.truncated == NO_TRUNCATION {
            None
        } else {
            Some(choose|kind: ResourceKind| usage::place(kind) == self.truncated)
        }
    }

    /// Whether work may be truncated where it would else be refused.
    pub closed spec fn may_cut(self) -> bool {
        self.truncation_allowed
    }

    /// The same but for the usage and the truncation.
    pub open spec fn same_rules(self, other: Self) -> bool {
        &&& self.how() == other.how()
        &&& forall|k: ResourceKind| #[trigger] self.bound(k) == other.bound(k)
        &&& self.may_cut() == other.may_cut()
    }

    /// `after` is the budget with an amount of one kind counted.
    pub open spec fn counts(self, kind: ResourceKind, amount: u64, after: Self) -> bool {
        &&& self.same_rules(after)
        &&& forall|k: ResourceKind|
            #[trigger] after.used(k) == if k == kind {
                counted(self.used(k), amount)
            } else {
                self.used(k)
            }
    }

    /// Whether a charge goes over an enforced limit.
    pub open spec fn exceeds(self, kind: ResourceKind, amount: u64) -> bool {
        self.how() is Enforce && amount > 0 && (self.bound(kind) matches Some(limit) && reached(
            self.used(kind),
            amount,
        ) > limit)
    }

    /// The error of a charge that goes over a limit.
    pub open spec fn refuses(self, kind: ResourceKind, amount: u64, err: Error) -> bool {
        err matches Error::QueryResourceExceeded { resource, limit, used } && resource@
            == usage::name(kind) && self.bound(kind) == Some(limit) && used == reached(
            self.used(kind),
            amount,
        )
    }

    /// The kind that the work is truncated on after a charge that may be
    /// truncated.
    pub open spec fn cut_after(self, kind: ResourceKind, amount: u64) -> Option<ResourceKind> {
        if self.exceeds(kind, amount) && self.may_cut() && self.cut() is None {
            Some(kind)
        } else {
            self.cut()
        }
    }

    /// What may still be used of a kind that is limited.
    pub open spec fn room(self, kind: ResourceKind) -> u64 {
        match self.bound(kind) {
            Some(limit) => if self.used(kind) < limit {
                (limit - self.used(kind)) as u64
            } else {
                0
            },
            None => u64::MAX,
        }
    }

    /// A budget that counts nothing.
    pub fn disabled() -> (budget: Self)
        ensures
            budget.how() is Disabled,
            budget.fresh(),
            forall|k: ResourceKind| #[trigger] budget.bound(k) is None,
    {
        ResourceBudget::new(EnforcementMode::Disabled, ResourceLimits::default())
    }

    /// A budget that counts and never refuses.
    pub fn monitor(limits: ResourceLimits) -> (budget: Self)
        ensures
            budget.how() is Monitor,
            budget.fresh(),
            forall|k: ResourceKind| #[trigger] budget.bound(k) == limits@(k),
    {
        ResourceBudget::new(EnforcementMode::Monitor, limits)
    }

    /// A budget that counts and refuses what goes over its limits.
    pub fn enforcing(limits: ResourceLimits) -> (budget: Self)
        ensures
            budget.how() is Enforce,
            budget.fresh(),
            forall|k: ResourceKind| #[trigger] budget.bound(k) == limits@(k),
    {
        ResourceBudget::new(EnforcementMode::Enforce, limits)
    }

    /// Nothing was used, and nothing was truncated or may be.
    pub open spec fn fresh(self) -> bool {
        &&& forall|k: ResourceKind| #[trigger] self.used(k) == 0
        &&& self.cut() is None
        &&& !self.may_cut()
    }

    fn new(mode: EnforcementMode, limits: ResourceLimits) -> (budget: Self)
        ensures
            budget.how() == mode,
            budget.fresh(),
            forall|k: ResourceKind| #[trigger] budget.bound(k) == limits@(k),
    {
        ResourceBudget {
            mode,
            limits,
            usage: [0; RESOURCE_COUNT],
            truncated: NO_TRUNCATION,
            truncation_allowed: false,
        }
    }

    /// How the budget deals with its limits.
    pub fn mode(&self) -> (mode: EnforcementMode)
        ensures
            mode == self.how(),
    {
        self.mode
    }

    /// Counts an amount of a kind, and refuses it where it goes over an
    /// enforced limit. What is refused is counted all the same.
    pub fn charge(&mut self, kind: ResourceKind, amount: u64) -> (result: Result<(), Error>)
        ensures
            if old(self).how() is Disabled {
                *final(self) == *old(self)
            } else {
                old(self).counts(kind, amount, *final(self)) && final(self).cut() == old(
                    self,
                ).cut()
            },
            match result {
                Ok(()) => !old(self).exceeds(kind, amount),
                Err(err) => old(self).exceeds(kind, amount) && old(self).refuses(
                    kind,
                    amount,
                    err,
                ),
            },
    {
        if matches!(self.mode, EnforcementMode::Disabled) || amount == 0 {
            return Ok(());
        }
        let previous: u64 = self.count(kind, amount);
        let used: u64 = previous.saturating_add(amount);
        if matches!(self.mode, EnforcementMode::Enforce) {
            if let Some(limit) = self.limits.limit(kind) {
                if used > limit {
                    return Err(
                        Error::QueryResourceExceeded { resource: kind.label(), limit, used },
                    );
                }
            }
        }
        Ok(())
    }

    /// Counts an amount, and tells what was used before.
    fn count(&mut self, kind: ResourceKind, amount: u64) -> (previous: u64)
        ensures
            old(self).counts(kind, amount, *final(self)),
            final(self).cut() == old(self).cut(),
            previous == old(self).used(kind),
    {
        proof {
            use_type_invariant(&*self);
        }
        let previous: u64 = self.usage[kind.index()];
        let mut usage = self.usage;
        usage[kind.index()] = previous.wrapping_add(amount);
        self.usage = usage;
        assert forall|k: ResourceKind| #[trigger] self.used(k) == if k == kind {
            counted(old(self).used(k), amount)
        } else {
            old(self).used(k)
        } by {
            if usage::place(k) == usage::place(kind) {
                usage::lemma_place_injective(k, kind);
            }
        }
        previous
    }

    /// Counts an amount of a kind. Where it goes over an enforced limit, it is
    /// cut down to what is within the limit if truncation is allowed, and
    /// refused if not.
    pub fn charge_or_truncate(&mut self, kind: ResourceKind, amount: u64) -> (result: Result<
        ChargeOutcome,
        Error,
    >)
        ensures
            if old(self).how() is Disabled {
                *final(self) == *old(self)
            } else {
                old(self).counts(kind, amount, *final(self))
            },
            final(self).cut() == old(self).cut_after(kind, amount),
            match result {
                Ok(ChargeOutcome::Charged) => !old(self).exceeds(kind, amount),
                Ok(ChargeOutcome::Truncated(k, allowed)) => {
                    &&& old(self).exceeds(kind, amount)
                    &&& old(self).may_cut()
                    &&& k == kind
                    &&& allowed == old(self).room(kind)
                },
                Err(err) => {
                    &&& old(self).exceeds(kind, amount)
                    &&& !old(self).may_cut()
                    &&& old(self).refuses(kind, amount, err)
                },
            },
    {
        if matches!(self.mode, EnforcementMode::Disabled) || amount == 0 {
            return Ok(ChargeOutcome::Charged);
        }
        let previous: u64 = self.count(kind, amount);
        let used: u64 = previous.saturating_add(amount);
        if matches!(self.mode, EnforcementMode::Enforce) {
            if let Some(limit) = self.limits.limit(kind) {
                if used > limit {
                    if !self.truncation_allowed {
                        return Err(
                            Error::QueryResourceExceeded { resource: kind.label(), limit, used },
                        );
                    }
                    self.mark_truncated(kind);
                    let allowed: u64 = limit.saturating_sub(previous);
                    return Ok(ChargeOutcome::Truncated(kind, allowed));
                }
            }
        }
        Ok(ChargeOutcome::Charged)
    }

    /// Takes note of the kind that the work is truncated on. The first one
    /// stays.
    pub fn mark_truncated(&mut self, kind: ResourceKind)
        ensures
            old(self).same_rules(*final(self)),
            forall|k: ResourceKind| #[trigger] final(self).used(k) == old(self).used(k),
            final(self).cut() == if old(self).cut() is None {
                Some(kind)
            } else {
                old(self).cut()
            },
    {
        if self.truncated == NO_TRUNCATION {
            self.truncated = kind.index() as u64;
            proof {
                let chosen = choose|k: ResourceKind| usage::place(k) == self.truncated;
                assert(usage::place(kind) == self.truncated);
                usage::lemma_place_injective(chosen, kind);
            }
        }
    }

    /// Sets whether work may be truncated where it would else be refused.
    pub fn set_truncation_allowed(&mut self, allowed: bool)
        ensures
            final(self).may_cut() == allowed,
            final(self).how() == old(self).how(),
            forall|k: ResourceKind| #[trigger] final(self).bound(k) == old(self).bound(k),
            forall|k: ResourceKind| #[trigger] final(self).used(k) == old(self).used(k),
            final(self).cut() == old(self).cut(),
    {
        proof {
            use_type_invariant(&*self);
        }
        self.truncation_allowed = allowed;
    }

    /// The kind that the work was truncated on.
    pub fn truncated_kind(&self) -> (kind: Option<ResourceKind>)
        ensures
            kind == self.cut(),
    {
        proof {
            use_type_invariant(self);
            self.lemma_cut();
        }
        ResourceBudget::kind_from_truncation_index(self.truncated)
    }

    proof fn lemma_cut(self)
        requires
            self.proper(),
        ensures
            forall|kind: Option<ResourceKind>|
                #[trigger] kind_at(self.truncated, kind) ==> kind == self.cut(),
    {
        assert forall|kind: Option<ResourceKind>| #[trigger]
            kind_at(self.truncated, kind) implies kind == self.cut() by {
            if let Some(k) = kind {
                let chosen = choose|k: ResourceKind| usage::place(k) == self.truncated;
                assert(usage::place(k) == self.truncated);
                usage::lemma_place_injective(chosen, k);
            }
        }
    }

    /// The kind that the work was truncated on, which is forgotten.
    pub fn take_truncated_kind(&mut self) -> (kind: Option<ResourceKind>)
        ensures
            kind == old(self).cut(),
            final(self).cut() is None,
            old(self).same_rules(*final(self)),
            forall|k: ResourceKind| #[trigger] final(self).used(k) == old(self).used(k),
    {
        proof {
            use_type_invariant(&*self);
            self.lemma_cut();
        }
        let index: u64 = self.truncated;
        self.truncated = NO_TRUNCATION;
        ResourceBudget::kind_from_truncation_index(index)
    }

    /// The kind that a truncation index stands for.
    pub fn kind_from_truncation_index(index: u64) -> (kind: Option<ResourceKind>)
        ensures
            kind_at(index, kind),
    {
        if index == NO_TRUNCATION {
            return None;
        }
        let kinds = ResourceKind::all();
        let mut i: usize = 0;
        while i < RESOURCE_COUNT
            invariant
                i <= RESOURCE_COUNT,
                index >= i,
                forall|j: int| 0 <= j < RESOURCE_COUNT ==> usage::place(#[trigger] kinds@[j]) == j,
            decreases RESOURCE_COUNT - i,
        {
            if kinds[i].index() as u64 == index {
                return Some(kinds[i]);
            }
            i = i + 1;
        }
        None
    }

    /// What was used of every kind.
    pub fn usage(&self) -> (snapshot: ResourceUsageSnapshot)
        ensures
            forall|k: ResourceKind|
                #![trigger snapshot@[usage::place(k)]]
                #![trigger self.used(k)]
                snapshot@[usage::place(k)] == self.used(k),
            snapshot@.len() == RESOURCE_COUNT,
    {
        let mut values: [u64; RESOURCE_COUNT] = [0; RESOURCE_COUNT];
        let kinds = ResourceKind::all();
        let mut i: usize = 0;
        while i < RESOURCE_COUNT
            invariant
                i <= RESOURCE_COUNT,
                forall|j: int| 0 <= j < RESOURCE_COUNT ==> usage::place(#[trigger] kinds@[j]) == j,
                forall|j: int| 0 <= j < i ==> #[trigger] values@[j] == self.usage@[j],
            decreases RESOURCE_COUNT - i,
        {
            assert(usage::place(kinds@[i as int]) == i);
            values[kinds[i].index()] = self.usage[kinds[i].index()];
            i = i + 1;
        }
        ResourceUsageSnapshot::new(values)
    }
}

impl Default for ResourceBudget {
    /// A disabled budget.
    fn default() -> (budget: Self)
        ensures
            budget.how() is Disabled,
            budget.fresh(),
            forall|k: ResourceKind| #[trigger] budget.bound(k) is None,
    {
        ResourceBudget::disabled()
    }
}

/// A truncation index stands for at most one kind, and the place of a kind for
/// that kind.
pub proof fn lemma_kind_at(
    index: u64,
    a: Option<ResourceKind>,
    b: Option<ResourceKind>,
    kind: ResourceKind,
)
    requires
        kind_at(index, a),
        kind_at(index, b),
    ensures
        a == b,
        a == Some(kind) <==> usage::place(kind) == index,
        a is None <==> index >= RESOURCE_COUNT,
{
}

/// A budget that counts refuses a charge exactly where the usage with it would
/// be over the limit: what is used within all limits is never refused, and a
/// budget that observes refuses nothing.
pub proof fn lemma_refused_over_limit(budget: ResourceBudget, kind: ResourceKind, amount: u64)
    ensures
        budget.exceeds(kind, amount) ==> budget.how() is Enforce && budget.bound(kind) is Some
            && budget.used(kind) + amount > budget.bound(kind)->0,
        budget.how() is Enforce && amount > 0 && budget.bound(kind) is Some && budget.bound(kind)->0
            < u64::MAX && budget.used(kind) + amount > budget.bound(kind)->0 ==> budget.exceeds(
            kind,
            amount,
        ),
{
}

/// Two charges of one kind count as one of both amounts.
pub proof fn lemma_charges_add_up(
    budget: ResourceBudget,
    kind: ResourceKind,
    a: u64,
    b: u64,
    once: ResourceBudget,
    twice: ResourceBudget,
)
    requires
        budget.counts(kind, a, once),
        once.counts(kind, b, twice),
        a + b <= u64::MAX,
    ensures
        budget.counts(kind, (a + b) as u64, twice),
{
    assert forall|k: ResourceKind| #[trigger] twice.used(k) == if k == kind {
        counted(budget.used(k), (a + b) as u64)
    } else {
        budget.used(k)
    } by {
        assert(once.used(k) == if k == kind {
            counted(budget.used(k), a)
        } else {
            budget.used(k)
        });
    }
    assert forall|k: ResourceKind| #[trigger] budget.bound(k) == twice.bound(k) by {
        assert(once.bound(k) == twice.bound(k));
    }
}

/// Of a truncated charge less than all may still be processed.
pub proof fn lemma_truncation_cuts(budget: ResourceBudget, kind: ResourceKind, amount: u64)
    requires
        budget.exceeds(kind, amount),
        budget.used(kind) <= budget.bound(kind)->0,
    ensures
        0 <= budget.bound(kind)->0 - budget.used(kind) < amount,
{
}

/// The amounts of one kind among some charges, added up.
pub open spec fn total(charges: Seq<(ResourceKind, u64)>, kind: ResourceKind) -> int
    decreases charges.len(),
{
    if charges.len() == 0 {
        0
    } else {
        total(charges.drop_last(), kind) + if charges.last().0 == kind {
            charges.last().1 as int
        } else {
            0
        }
    }
}

/// Budgets that follow each other, each the one before it with a charge
/// counted.
pub open spec fn counted_one_by_one(
    budgets: Seq<ResourceBudget>,
    charges: Seq<(ResourceKind, u64)>,
) -> bool {
    &&& budgets.len() == charges.len() + 1
    &&& forall|i: int|
        #![trigger charges[i]]
        0 <= i < charges.len() ==> budgets[i].counts(charges[i].0, charges[i].1, budgets[i + 1])
}

/// Every kind is counted, and every charge: whatever was charged in whatever
/// order, the usage of each kind is up by the sum of the amounts of that kind,
/// modulo two to the power 64, and the rules are what they were.
pub proof fn lemma_usage_is_the_sum(
    budgets: Seq<ResourceBudget>,
    charges: Seq<(ResourceKind, u64)>,
    kind: ResourceKind,
)
    requires
        counted_one_by_one(budgets, charges),
    ensures
        budgets.last().used(kind) == (budgets[0].used(kind) + total(charges, kind))
            % 0x1_0000_0000_0000_0000,
        budgets.last().how() == budgets[0].how(),
        budgets.last().bound(kind) == budgets[0].bound(kind),
        budgets.last().may_cut() == budgets[0].may_cut(),
        total(charges, kind) >= 0,
    decreases charges.len(),
{
    if charges.len() > 0 {
        let n = charges.len() as int;
        let less = charges.drop_last();
        let earlier = budgets.drop_last();
        assert forall|i: int| #![trigger less[i]] 0 <= i < less.len() implies earlier[i].counts(
            less[i].0,
            less[i].1,
            earlier[i + 1],
        ) by {
            assert(charges[i] == less[i]);
        }
        lemma_usage_is_the_sum(earlier, less, kind);
        assert(earlier.last() == budgets[n - 1]);
        let last = charges[n - 1];
        assert(budgets[n - 1].counts(last.0, last.1, budgets[n]));
        assert(budgets[n].used(kind) == if kind == last.0 {
            counted(budgets[n - 1].used(kind), last.1)
        } else {
            budgets[n - 1].used(kind)
        });
        assert(budgets[n - 1].bound(kind) == budgets[n].bound(kind));
        let before = budgets[0].used(kind) + total(less, kind);
        let part = before % 0x1_0000_0000_0000_0000;
        let amount = last.1 as int;
        assert((part + amount) % 0x1_0000_0000_0000_0000 == (before + amount)
            % 0x1_0000_0000_0000_0000);
    }
}

/// From a fresh budget the usage of each kind is the sum of what was charged to
/// it. The next charge is refused exactly where it is of something, limits are
/// enforced, its kind has one, and the sum with it is over that limit. The error
/// names the kind, the limit and the sum. A budget that is not enforced refuses
/// nothing, and a kind without a limit is never refused.
pub proof fn lemma_refused_once_the_sum_is_over(
    budgets: Seq<ResourceBudget>,
    charges: Seq<(ResourceKind, u64)>,
    kind: ResourceKind,
    amount: u64,
    err: Error,
)
    requires
        counted_one_by_one(budgets, charges),
        budgets[0].fresh(),
        total(charges, kind) + amount <= u64::MAX,
    ensures
        budgets.last().used(kind) == total(charges, kind),
        budgets.last().exceeds(kind, amount) <==> (budgets[0].how() == EnforcementMode::Enforce
            && amount > 0 && match budgets[0].bound(kind) {
            Some(limit) => total(charges, kind) + amount > limit,
            None => false,
        }),
        budgets.last().refuses(kind, amount, err) <==> (match err {
            Error::QueryResourceExceeded { resource, limit, used } => resource@ == usage::name(kind)
                && budgets[0].bound(kind) == Some(limit) && used == total(charges, kind) + amount,
            _ => false,
        }),
{
    lemma_usage_is_the_sum(budgets, charges, kind);
    assert(budgets[0].used(kind) == 0);
}

/// A budget that has come to the end of what it can count with keeps refusing:
/// a charge that takes the usage past the last number is over every limit short
/// of that number.
pub proof fn lemma_refused_past_the_end(budget: ResourceBudget, kind: ResourceKind, amount: u64)
    requires
        budget.how() == EnforcementMode::Enforce,
        budget.bound(kind) matches Some(limit) && limit < u64::MAX,
        budget.used(kind) + amount > u64::MAX,
    ensures
        budget.exceeds(kind, amount),
        forall|err: Error|
            #[trigger] budget.refuses(kind, amount, err) ==> err->QueryResourceExceeded_used
                == u64::MAX,
{
}

/// Nothing goes over the largest limit that can be set.
pub proof fn lemma_largest_limit(budget: ResourceBudget, kind: ResourceKind, amount: u64)
    requires
        budget.bound(kind) == Some(u64::MAX),
    ensures
        !budget.exceeds(kind, amount),
{
}

/// The kind that work is truncated on is that of the first charge that went over
/// its limit, whatever was charged after it. Where none did, or truncation is not
/// allowed, it is not truncated.
pub proof fn lemma_first_truncation_stays(
    budgets: Seq<ResourceBudget>,
    charges: Seq<(ResourceKind, u64)>,
)
    requires
        counted_one_by_one(budgets, charges),
        forall|i: int|
            #![trigger charges[i]]
            0 <= i < charges.len() ==> budgets[i + 1].cut() == budgets[i].cut_after(
                charges[i].0,
                charges[i].1,
            ),
        budgets[0].cut() is None,
    ensures
        match budgets.last().cut() {
            Some(kind) => budgets[0].may_cut() && exists|i: int|
                #![trigger charges[i]]
                0 <= i < charges.len() && charges[i].0 == kind && budgets[i].exceeds(
                    kind,
                    charges[i].1,
                ) && forall|j: int|
                    #![trigger charges[j]]
                    0 <= j < i ==> !budgets[j].exceeds(charges[j].0, charges[j].1),
            None => budgets[0].may_cut() ==> forall|j: int|
                #![trigger charges[j]]
                0 <= j < charges.len() ==> !budgets[j].exceeds(charges[j].0, charges[j].1),
        },
    decreases charges.len(),
{
    if charges.len() > 0 {
        let n = charges.len() as int;
        let less = charges.drop_last();
        let earlier = budgets.drop_last();
        assert forall|i: int| #![trigger less[i]] 0 <= i < less.len() implies earlier[i].counts(
            less[i].0,
            less[i].1,
            earlier[i + 1],
        ) && earlier[i + 1].cut() == earlier[i].cut_after(less[i].0, less[i].1) by {
            assert(charges[i] == less[i]);
        }
        lemma_first_truncation_stays(earlier, less);
        lemma_usage_is_the_sum(earlier, less, charges[n - 1].0);
        assert(earlier.last() == budgets[n - 1]);
        assert(budgets[n].cut() == budgets[n - 1].cut_after(charges[n - 1].0, charges[n - 1].1));
        match budgets[n - 1].cut() {
            Some(kind) => {
                let i = choose|i: int|
                    #![trigger less[i]]
                    0 <= i < less.len() && less[i].0 == kind && earlier[i].exceeds(
                        kind,
                        less[i].1,
                    ) && forall|j: int|
                        #![trigger less[j]]
                        0 <= j < i ==> !earlier[j].exceeds(less[j].0, less[j].1);
                assert(charges[i] == less[i]);
                assert forall|j: int| #![trigger charges[j]] 0 <= j < i implies !budgets[j].exceeds(
                    charges[j].0,
                    charges[j].1,
                ) by {
                    assert(less[j] == charges[j]);
                }
            },
            None => {
                assert forall|j: int|
                    #![trigger charges[j]]
                    0 <= j < n - 1 && budgets[0].may_cut() implies !budgets[j].exceeds(
                    charges[j].0,
                    charges[j].1,
                ) by {
                    assert(less[j] == charges[j]);
                }
                assert(charges[n - 1] == charges[n - 1]);
            },
        }
    }
}

/// What may still be processed of a truncated charge is all that the limit
/// leaves: with it the usage is at the limit, or was past it before and nothing
/// may be processed. It is less than the charge, it would not itself be refused,
/// and one more would be.
pub proof fn lemma_room_is_what_is_left(budget: ResourceBudget, kind: ResourceKind, amount: u64)
    requires
        budget.exceeds(kind, amount),
    ensures
        budget.bound(kind) matches Some(limit) && if budget.used(kind) <= limit {
            budget.used(kind) + budget.room(kind) == limit
        } else {
            budget.room(kind) == 0
        },
        budget.room(kind) < amount,
        !budget.exceeds(kind, budget.room(kind)),
        budget.bound(kind) != Some(u64::MAX) ==> budget.exceeds(
            kind,
            (budget.room(kind) + 1) as u64,
        ),
{
}

} // verus!
