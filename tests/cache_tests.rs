use deep_pockets::cache::{Cache, DEFAULT_COUNT_LIMIT, DEFAULT_TOTAL_COST_LIMIT};
use deep_pockets::error::CacheError;

#[test]
fn test_thing() {
    let mut cache = Cache::new(&String::from("akash")).unwrap();
    cache.set_object(&String::from("key"), &String::from("value")).unwrap();
    assert_eq!(cache.object_for("key").unwrap(), Some(String::from("value")));
}

#[test]
fn test() {
    let cache = Cache::new(&String::from("cache")).unwrap();
    assert_eq!(cache.name(), "cache");
    assert_eq!(cache.len(), 0);
}

#[test]
fn new_uses_default_limits() {
    let cache = Cache::new("c").unwrap();
    assert_eq!(cache.count_limit(), 100);
    assert_eq!(cache.total_cost_limit(), 1000);
    assert_eq!(DEFAULT_COUNT_LIMIT, 100);
    assert_eq!(DEFAULT_TOTAL_COST_LIMIT, 1000);
}

#[test]
fn set_then_get_returns_value() {
    let mut cache = Cache::new("c").unwrap();
    cache.set_object("k", "hello").unwrap();
    assert_eq!(cache.object_for("k").unwrap(), Some(String::from("hello")));
}

#[test]
fn negative_cost_is_rejected_and_keeps_old_entry() {
    let mut cache = Cache::new("c").unwrap();
    cache.set_object_cost("k", "old", 3).unwrap();
    assert_eq!(cache.set_object_cost("k", "new", -1), Err(CacheError::InvalidArgument));
    assert_eq!(cache.object_for("k").unwrap(), Some(String::from("old")));
    assert_eq!(cache.total_cost(), 3);
}

#[test]
fn overwrite_keeps_one_entry_with_new_value() {
    let mut cache = Cache::new("c").unwrap();
    cache.set_object("k", "v1").unwrap();
    cache.set_object("k", "v2").unwrap();
    assert_eq!(cache.object_for("k").unwrap(), Some(String::from("v2")));
    assert_eq!(cache.len(), 1);
    assert_eq!(cache.total_cost(), 2);
}

#[test]
fn remove_then_get_is_none_for_present_and_absent_keys() {
    let mut cache = Cache::new("c").unwrap();
    cache.set_object("k", "v").unwrap();
    cache.remove_object("k").unwrap();
    assert_eq!(cache.object_for("k").unwrap(), None);
    cache.remove_object("never").unwrap();
    assert_eq!(cache.object_for("never").unwrap(), None);
    assert_eq!(cache.len(), 0);
    assert_eq!(cache.total_cost(), 0);
}

#[test]
fn clear_then_get_is_none_for_every_key() {
    let mut cache = Cache::new("c").unwrap();
    cache.set_object("a", "1").unwrap();
    cache.set_object("b", "22").unwrap();
    cache.remove_all_objects().unwrap();
    assert_eq!(cache.object_for("a").unwrap(), None);
    assert_eq!(cache.object_for("b").unwrap(), None);
    assert_eq!(cache.len(), 0);
    assert_eq!(cache.total_cost(), 0);
}

#[test]
fn count_limit_evicts_least_recently_used() {
    let mut cache = Cache::with_limits("c", 2, 1000).unwrap();
    cache.set_object("a", "1").unwrap();
    cache.set_object("b", "2").unwrap();
    cache.set_object("c", "3").unwrap();
    assert_eq!(cache.object_for("a").unwrap(), None);
    assert_eq!(cache.object_for("b").unwrap(), Some(String::from("2")));
    assert_eq!(cache.object_for("c").unwrap(), Some(String::from("3")));
    assert_eq!(cache.len(), 2);
}

#[test]
fn a_read_refreshes_recency() {
    let mut cache = Cache::with_limits("c", 2, 1000).unwrap();
    cache.set_object("a", "1").unwrap();
    cache.set_object("b", "2").unwrap();
    assert_eq!(cache.object_for("a").unwrap(), Some(String::from("1")));
    cache.set_object("c", "3").unwrap();
    assert_eq!(cache.object_for("b").unwrap(), None);
    assert_eq!(cache.object_for("a").unwrap(), Some(String::from("1")));
    assert_eq!(cache.object_for("c").unwrap(), Some(String::from("3")));
}

#[test]
fn cost_limit_evicts_first_entry() {
    let mut cache = Cache::with_limits("c", 100, 10).unwrap();
    cache.set_object_cost("first", "x", 8).unwrap();
    cache.set_object_cost("second", "y", 5).unwrap();
    assert_eq!(cache.object_for("first").unwrap(), None);
    assert_eq!(cache.object_for("second").unwrap(), Some(String::from("y")));
    assert_eq!(cache.total_cost(), 5);
    assert!(cache.total_cost() <= 10);
}

#[test]
fn cost_limit_evicts_only_as_many_as_needed() {
    let mut cache = Cache::with_limits("c", 100, 10).unwrap();
    cache.set_object_cost("a", "x", 3).unwrap();
    cache.set_object_cost("b", "x", 3).unwrap();
    cache.set_object_cost("c", "x", 3).unwrap();
    cache.set_object_cost("d", "x", 4).unwrap();
    assert_eq!(cache.object_for("a").unwrap(), None);
    assert_eq!(cache.object_for("b").unwrap(), Some(String::from("x")));
    assert_eq!(cache.object_for("c").unwrap(), Some(String::from("x")));
    assert_eq!(cache.object_for("d").unwrap(), Some(String::from("x")));
    assert_eq!(cache.total_cost(), 10);
}

#[test]
fn updating_a_key_subtracts_its_old_cost_first() {
    let mut cache = Cache::with_limits("c", 100, 10).unwrap();
    cache.set_object_cost("a", "x", 4).unwrap();
    cache.set_object_cost("b", "y", 6).unwrap();
    cache.set_object_cost("b", "z", 6).unwrap();
    assert_eq!(cache.object_for("a").unwrap(), Some(String::from("x")));
    assert_eq!(cache.object_for("b").unwrap(), Some(String::from("z")));
    assert_eq!(cache.total_cost(), 10);
}

#[test]
fn default_cost_is_byte_length() {
    let mut cache = Cache::new("c").unwrap();
    cache.set_object("k", "hello").unwrap();
    assert_eq!(cache.total_cost(), 5);
    cache.set_object("u", "é€").unwrap();
    assert_eq!(cache.total_cost(), 10);
}

#[test]
fn entry_larger_than_cost_limit_is_rejected() {
    let mut cache = Cache::with_limits("c", 100, 4).unwrap();
    cache.set_object("a", "1").unwrap();
    assert_eq!(cache.set_object("k", "hello"), Err(CacheError::InvalidArgument));
    assert_eq!(cache.set_object_cost("k", "v", 5), Err(CacheError::InvalidArgument));
    assert_eq!(cache.object_for("a").unwrap(), Some(String::from("1")));
    assert_eq!(cache.set_object_cost("k", "v", 4), Ok(()));
    assert_eq!(cache.object_for("a").unwrap(), None);
}

#[test]
fn zero_count_limit_admits_nothing() {
    let mut cache = Cache::with_limits("c", 0, 100).unwrap();
    assert_eq!(cache.set_object("k", "v"), Err(CacheError::InvalidArgument));
    assert_eq!(cache.object_for("k").unwrap(), None);
}

#[test]
fn negative_cost_limit_is_rejected() {
    assert!(matches!(Cache::with_limits("c", 1, -1), Err(CacheError::InvalidArgument)));
}

#[test]
fn zero_cost_entries_are_bounded_by_count() {
    let mut cache = Cache::with_limits("c", 1, 0).unwrap();
    cache.set_object("a", "").unwrap();
    cache.set_object("b", "").unwrap();
    assert_eq!(cache.object_for("a").unwrap(), None);
    assert_eq!(cache.object_for("b").unwrap(), Some(String::new()));
}

#[test]
fn error_messages_are_distinct() {
    assert_eq!(CacheError::OpenFailure.message(), "storage could not be opened");
    assert_eq!(CacheError::SchemaFailure.message(), "storage schema could not be created");
    assert_eq!(CacheError::QueryFailure.message(), "storage query failed");
    assert_eq!(CacheError::InvalidArgument.message(), "invalid argument");
}
