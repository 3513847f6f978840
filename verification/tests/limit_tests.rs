use mtree::utils::Limit;

#[test]
fn new_counter_starts_at_zero() {
    let limit = Limit::new(Some(5));
    assert_eq!(limit.get_count(), 0);
    assert_eq!(limit.get_limit(), Some(5));
    let open = Limit::new(None);
    assert_eq!(open.get_count(), 0);
    assert_eq!(open.get_limit(), None);
}

#[test]
fn increment_and_decrement_move_by_one() {
    let mut limit = Limit::new(Some(5));
    limit.increment();
    limit.increment();
    assert_eq!(limit.get_count(), 2);
    limit.decrement();
    assert_eq!(limit.get_count(), 1);
    assert_eq!(limit.get_limit(), Some(5));
}

#[test]
fn increment_does_not_stop_at_the_ceiling() {
    let mut limit = Limit::new(Some(1));
    limit.increment();
    limit.increment();
    assert_eq!(limit.get_count(), 2);
    assert!(!limit.is_under_limit());
    assert!(!limit.is_at_limit());
}

#[test]
fn reset_sets_the_count_back() {
    let mut limit = Limit::new(Some(3));
    limit.increment();
    limit.increment();
    limit.reset_count();
    assert_eq!(limit.get_count(), 0);
    assert_eq!(limit.get_limit(), Some(3));
}

#[test]
fn under_limit_means_below_the_ceiling() {
    let mut limit = Limit::new(Some(2));
    assert!(limit.is_under_limit());
    limit.increment();
    assert!(limit.is_under_limit());
    limit.increment();
    assert!(!limit.is_under_limit());
    assert!(!Limit::new(Some(0)).is_under_limit());
}

#[test]
fn counter_without_ceiling_is_always_under_and_never_at() {
    let mut limit = Limit::new(None);
    for _ in 0..100 {
        assert!(limit.is_under_limit());
        assert!(!limit.is_at_limit());
        limit.increment();
    }
    assert_eq!(limit.get_count(), 100);
}

#[test]
fn at_limit_means_one_below_the_ceiling() {
    let mut limit = Limit::new(Some(2));
    assert!(!limit.is_at_limit());
    limit.increment();
    assert!(limit.is_at_limit());
    limit.increment();
    assert!(!limit.is_at_limit());
    assert!(!Limit::new(Some(0)).is_at_limit());
    assert!(Limit::new(Some(1)).is_at_limit());
}

#[test]
fn at_limit_does_not_overflow_at_the_largest_ceiling() {
    let limit = Limit::new(Some(usize::MAX));
    assert!(!limit.is_at_limit());
    assert!(limit.is_under_limit());
}

#[test]
fn counters_compare_by_count_and_ceiling() {
    let mut a = Limit::new(Some(3));
    let b = a;
    assert_eq!(a, b);
    a.increment();
    assert_ne!(a, b);
    assert_ne!(Limit::new(None), Limit::new(Some(0)));
}
