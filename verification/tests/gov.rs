use gov::budget::{ChargeOutcome, EnforcementMode, ResourceBudget, ResourceLimits};
use gov::error::Error;
use gov::usage::{ResourceKind, ResourceUsageSnapshot, RESOURCE_COUNT};

#[test]
fn disabled_budget_does_not_record_usage_or_reject() {
    let mut budget = ResourceBudget::disabled();

    budget.charge(ResourceKind::ResultRow, 10).expect("disabled budget should not reject");

    let usage = budget.usage();
    assert_eq!(usage.get(ResourceKind::ResultRow), 0);
    assert_eq!(budget.mode(), EnforcementMode::Disabled);
}

#[test]
fn monitor_budget_records_usage_without_rejecting() {
    let limits = ResourceLimits::default().with_limit(ResourceKind::ResultRow, 5);
    let mut budget = ResourceBudget::monitor(limits);

    budget.charge(ResourceKind::ResultRow, 3).expect("below limit should not reject");
    budget.charge(ResourceKind::ResultRow, 4).expect("monitor mode should not reject");

    let usage = budget.usage();
    assert_eq!(usage.get(ResourceKind::ResultRow), 7);
    assert_eq!(budget.mode(), EnforcementMode::Monitor);
}

#[test]
fn enforcing_budget_rejects_when_limit_is_exceeded() {
    let limits = ResourceLimits::default().with_limit(ResourceKind::ResultRow, 5);
    let mut budget = ResourceBudget::enforcing(limits);

    budget.charge(ResourceKind::ResultRow, 5).expect("at limit should pass");
    let err = budget.charge(ResourceKind::ResultRow, 1).expect_err("over limit should reject");

    let message = err.message();
    assert!(message.contains("result rows"));
    assert!(message.contains("5"));
    assert!(message.contains("6"));
    assert_eq!(budget.usage().get(ResourceKind::ResultRow), 6);
}

#[test]
fn charge_or_truncate_marks_scan_limit_without_erroring() {
    let mut budget =
        ResourceBudget::enforcing(ResourceLimits::default().with_limit(ResourceKind::ScanKey, 5));
    budget.set_truncation_allowed(true);

    assert_eq!(
        budget.charge_or_truncate(ResourceKind::ScanKey, 3).unwrap(),
        ChargeOutcome::Charged
    );
    assert_eq!(
        budget.charge_or_truncate(ResourceKind::ScanKey, 3).unwrap(),
        ChargeOutcome::Truncated(ResourceKind::ScanKey, 2)
    );
    assert_eq!(budget.truncated_kind(), Some(ResourceKind::ScanKey));
}

#[test]
fn charge_or_truncate_errors_when_truncation_is_not_allowed() {
    let mut budget =
        ResourceBudget::enforcing(ResourceLimits::default().with_limit(ResourceKind::ScanKey, 5));

    let err = budget.charge_or_truncate(ResourceKind::ScanKey, 6).unwrap_err();
    assert!(err.message().contains("scan keys"));
    assert_eq!(budget.truncated_kind(), None);
}

#[test]
fn refused_amounts_are_told_and_counted() {
    let limits = ResourceLimits::default().with_limit(ResourceKind::HttpCall, 2);
    let mut budget = ResourceBudget::enforcing(limits);
    assert_eq!(
        budget.charge(ResourceKind::HttpCall, 9),
        Err(Error::QueryResourceExceeded { resource: "HTTP calls", limit: 2, used: 9 })
    );
    assert_eq!(budget.usage().get(ResourceKind::HttpCall), 9);
    // Kinds without a limit are never refused, and nothing costs nothing.
    assert_eq!(budget.charge(ResourceKind::GraphHop, u64::MAX), Ok(()));
    assert_eq!(budget.charge(ResourceKind::HttpCall, 0), Ok(()));
    assert_eq!(budget.usage().get(ResourceKind::GraphHop), u64::MAX);
}

#[test]
fn counters_go_round_and_the_check_does_not() {
    let limits = ResourceLimits::default().with_limit(ResourceKind::WorkUnit, u64::MAX - 1);
    let mut budget = ResourceBudget::enforcing(limits);
    assert_eq!(budget.charge(ResourceKind::WorkUnit, u64::MAX - 1), Ok(()));
    let err = budget.charge(ResourceKind::WorkUnit, 5).unwrap_err();
    assert_eq!(
        err,
        Error::QueryResourceExceeded {
            resource: "work units",
            limit: u64::MAX - 1,
            used: u64::MAX,
        }
    );
    assert_eq!(budget.usage().get(ResourceKind::WorkUnit), 3);
}

#[test]
fn charges_of_one_kind_add_up() {
    let mut twice = ResourceBudget::monitor(ResourceLimits::default());
    twice.charge(ResourceKind::KvRead, 3).unwrap();
    twice.charge(ResourceKind::KvRead, 4).unwrap();
    let mut once = ResourceBudget::monitor(ResourceLimits::default());
    once.charge(ResourceKind::KvRead, 7).unwrap();
    assert_eq!(once.usage(), twice.usage());
}

#[test]
fn first_truncation_stays_until_it_is_taken() {
    let mut budget = ResourceBudget::default();
    assert_eq!(budget.mode(), EnforcementMode::Disabled);
    assert_eq!(budget.take_truncated_kind(), None);
    budget.mark_truncated(ResourceKind::GraphHop);
    budget.mark_truncated(ResourceKind::WorkUnit);
    assert_eq!(budget.truncated_kind(), Some(ResourceKind::GraphHop));
    assert_eq!(budget.take_truncated_kind(), Some(ResourceKind::GraphHop));
    assert_eq!(budget.truncated_kind(), None);
    for kind in ResourceKind::all() {
        budget.mark_truncated(kind);
        assert_eq!(budget.take_truncated_kind(), Some(kind));
    }
}

#[test]
fn truncation_beyond_the_limit_allows_nothing() {
    let limits = ResourceLimits::default().with_limit(ResourceKind::RowRead, 5);
    let mut budget = ResourceBudget::enforcing(limits);
    budget.set_truncation_allowed(true);
    assert_eq!(
        budget.charge_or_truncate(ResourceKind::RowRead, 8),
        Ok(ChargeOutcome::Truncated(ResourceKind::RowRead, 5))
    );
    assert_eq!(
        budget.charge_or_truncate(ResourceKind::RowRead, 1),
        Ok(ChargeOutcome::Truncated(ResourceKind::RowRead, 0))
    );
    assert_eq!(budget.charge_or_truncate(ResourceKind::RowRead, 0), Ok(ChargeOutcome::Charged));
    assert_eq!(
        ResourceBudget::disabled().charge_or_truncate(ResourceKind::RowRead, 1),
        Ok(ChargeOutcome::Charged)
    );
}

#[test]
fn truncation_indices_stand_for_kinds() {
    for kind in ResourceKind::all() {
        assert_eq!(
            ResourceBudget::kind_from_truncation_index(kind.index() as u64),
            Some(kind)
        );
    }
    for index in [18, 19, u64::MAX - 1, u64::MAX] {
        assert_eq!(ResourceBudget::kind_from_truncation_index(index), None);
    }
}

#[test]
fn limits_are_kept_by_kind() {
    let limits = ResourceLimits::default()
        .with_limit(ResourceKind::KvRead, 1)
        .with_limit(ResourceKind::KvWrite, 2)
        .with_limit(ResourceKind::KvRead, 3);
    assert_eq!(limits.limit(ResourceKind::KvRead), Some(3));
    assert_eq!(limits.limit(ResourceKind::KvWrite), Some(2));
    assert_eq!(limits.limit(ResourceKind::ScanKey), None);
}

#[test]
fn kinds_have_places_and_labels() {
    let mut values = [0u64; RESOURCE_COUNT];
    for (i, kind) in ResourceKind::all().into_iter().enumerate() {
        assert_eq!(kind.index(), i);
        values[i] = 100 + i as u64;
    }
    let snapshot = ResourceUsageSnapshot::new(values);
    assert_eq!(snapshot.get(ResourceKind::WorkUnit), 100);
    assert_eq!(snapshot.get(ResourceKind::GraphHop), 117);
    assert_eq!(ResourceKind::WorkUnit.label(), "work units");
    assert_eq!(ResourceKind::ModuleHostKvWrite.label(), "module host KV writes");
    assert_eq!(ResourceKind::GraphHop.label(), "graph hops");
}
