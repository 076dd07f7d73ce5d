use plano::{AtomicIntCacheStats, StoreCounters, StoreOp};

#[test]
fn stats_start_at_zero_and_count() {
    let mut s = AtomicIntCacheStats::new();
    assert_eq!(s.total_reads(), 0);
    s.inc_total_reads();
    s.inc_total_reads();
    s.inc_total_misses();
    assert_eq!(s.total_reads(), 2);
    assert_eq!(s.total_misses(), 1);
    let d = AtomicIntCacheStats::default();
    assert_eq!(d.usage(), 0);
}

#[test]
fn stats_usage_refuses_underflow() {
    let mut s = AtomicIntCacheStats::new();
    s.set_max_capacity(500);
    s.set_usage(10);
    s.inc_usage(5);
    assert_eq!(s.usage(), 15);
    assert!(!s.sub_usage(20));
    assert_eq!(s.usage(), 15);
    assert!(s.sub_usage(15));
    assert_eq!(s.usage(), 0);
    assert_eq!(s.max_capacity(), 500);
}

#[test]
fn stats_usage_wraps_like_atomic_add() {
    let mut s = AtomicIntCacheStats::new();
    s.set_usage(u64::MAX);
    s.inc_usage(2);
    assert_eq!(s.usage(), 1);
}

#[test]
fn store_counters_count_each_operation() {
    let mut c = StoreCounters::new();
    c.record(StoreOp::GetOpts);
    c.record(StoreOp::GetOpts);
    c.record(StoreOp::List);
    assert_eq!(c.count(StoreOp::GetOpts), 2);
    assert_eq!(c.count(StoreOp::List), 1);
    assert_eq!(c.count(StoreOp::Delete), 0);
    assert_eq!(StoreOp::GetRange.metric_name(), "plano_store_get_range_total");
    assert_eq!(StoreOp::CopyIfNotExists.metric_name(), "plano_store_copy_if_not_exists_total");
}
