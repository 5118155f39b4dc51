use lobby_registry::limit::UsageTracker;

#[test]
fn increase_fails_at_the_effective_limit_and_changes_nothing() {
    let mut t = UsageTracker::new(vec![]);
    for _ in 0..5 {
        assert!(t.increase(1).is_ok());
    }
    assert!(t.increase(1).is_err());
    assert_eq!(t.current_count(1), 5);
}

#[test]
fn override_limits_apply_per_identity() {
    let mut t = UsageTracker::new(vec![(1, 2)]);
    assert_eq!(t.effective_limit_of(1), 2);
    assert_eq!(t.effective_limit_of(2), 5);
    assert!(t.increase(1).is_ok());
    assert!(t.increase(1).is_ok());
    assert!(t.increase(1).is_err());
    assert!(t.increase(2).is_ok());
}

#[test]
fn an_override_equal_to_the_default_is_not_stored() {
    let mut t = UsageTracker::new(vec![]);
    t.limit(9, 2);
    assert_eq!(t.user_limits.entries.len(), 1);
    assert_eq!(t.effective_limit_of(9), 2);
    t.limit(9, 5);
    assert_eq!(t.user_limits.entries.len(), 0);
    assert_eq!(t.effective_limit_of(9), 5);
}

#[test]
fn decrease_of_an_untracked_identity_is_a_reported_noop() {
    let mut t = UsageTracker::new(vec![]);
    assert!(t.decrease(4).is_some());
    assert_eq!(t.current_count(4), 0);
    assert_eq!(t.usage_count_by_ip.entries.len(), 0);
}

#[test]
fn decrease_by_floors_at_zero_and_removes_the_entry() {
    let mut t = UsageTracker::new(vec![]);
    assert!(t.increase(4).is_ok());
    assert!(t.increase(4).is_ok());
    assert!(t.increase(4).is_ok());
    assert!(t.decrease_by(4, 10).is_none());
    assert_eq!(t.current_count(4), 0);
    assert_eq!(t.usage_count_by_ip.entries.len(), 0);
}

#[test]
fn decrease_by_subtracts_exactly() {
    let mut t = UsageTracker::new(vec![]);
    assert!(t.increase(4).is_ok());
    assert!(t.increase(4).is_ok());
    assert!(t.increase(4).is_ok());
    assert!(t.decrease_by(4, 2).is_none());
    assert_eq!(t.current_count(4), 1);
}

#[test]
fn a_later_duplicate_override_wins() {
    let t = UsageTracker::new(vec![(1, 2), (1, 7)]);
    assert_eq!(t.effective_limit_of(1), 7);
}

#[test]
fn a_zero_count_is_never_stored() {
    let mut t = UsageTracker::new(vec![]);
    assert!(t.increase(8).is_ok());
    assert!(t.decrease(8).is_none());
    assert_eq!(t.usage_count_by_ip.entries.len(), 0);
}
