use arrow::record_batch::RecordBatch;
use plano::{check_cache, initialize_cache, QueryCache};

#[test]
fn test_check_cache_hit() {
    let mut cache: QueryCache<Vec<RecordBatch>> = initialize_cache(10).unwrap();
    let query = "SELECT * FROM test_table";
    let record_batches: Vec<RecordBatch> = vec![];
    cache.put(query.to_string(), record_batches.clone());

    let result = check_cache(&mut cache, query);
    assert!(result.is_some());
    assert_eq!(result.unwrap(), &record_batches);
}

#[test]
fn test_check_cache_miss() {
    let mut cache: QueryCache<Vec<RecordBatch>> = initialize_cache(10).unwrap();
    let query = "SELECT * FROM test_table";

    let result = check_cache(&mut cache, query);
    assert!(result.is_none());
}

#[test]
fn cache_evicts_least_recent_of_three() {
    let mut cache: QueryCache<u32> = initialize_cache(2).unwrap();
    cache.put("Q1".to_string(), 1);
    cache.put("Q2".to_string(), 2);
    cache.put("Q3".to_string(), 3);
    assert_eq!(cache.get("Q1"), None);
    assert_eq!(cache.get("Q2"), Some(&2));
    assert_eq!(cache.get("Q3"), Some(&3));
}

#[test]
fn cache_get_refreshes_recency() {
    let mut cache: QueryCache<u32> = initialize_cache(2).unwrap();
    cache.put("Q1".to_string(), 1);
    cache.put("Q2".to_string(), 2);
    assert_eq!(cache.get("Q1"), Some(&1));
    cache.put("Q3".to_string(), 3);
    assert_eq!(cache.get("Q2"), None);
    assert_eq!(cache.get("Q1"), Some(&1));
    assert_eq!(cache.get("Q3"), Some(&3));
}

#[test]
fn cache_put_overwrites_existing_key() {
    let mut cache: QueryCache<String> = initialize_cache(2).unwrap();
    cache.put("Q".to_string(), "old".to_string());
    cache.put("R".to_string(), "r".to_string());
    cache.put("Q".to_string(), "new".to_string());
    cache.put("S".to_string(), "s".to_string());
    assert_eq!(cache.get("Q"), Some(&"new".to_string()));
    assert_eq!(cache.get("R"), None);
}

#[test]
fn cache_keys_are_exact_text() {
    let mut cache: QueryCache<u32> = initialize_cache(4).unwrap();
    cache.put("select 1".to_string(), 1);
    assert_eq!(cache.get("SELECT 1"), None);
    assert_eq!(cache.get("select 1 "), None);
}

#[test]
fn cache_of_capacity_one_keeps_latest() {
    let mut cache: QueryCache<u32> = initialize_cache(1).unwrap();
    for i in 0..5u32 {
        cache.put(format!("Q{i}"), i);
    }
    assert_eq!(cache.get("Q3"), None);
    assert_eq!(cache.get("Q4"), Some(&4));
}

#[test]
fn zero_capacity_is_a_configuration_error() {
    let result: Result<QueryCache<u32>, String> = initialize_cache(0);
    assert_eq!(result.err().unwrap(), "Cache size must be a non-zero value");
}
