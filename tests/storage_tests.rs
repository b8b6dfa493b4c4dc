use deep_pockets::database_manager::DatabaseManager;

#[test]
fn test_exists_retuns_true_when_key_is_found_and_false_otherwise() {
    let mut db = DatabaseManager::open("cache").unwrap();
    db.create_table().unwrap();

    let key = String::from("key");
    let value = String::from("value");
    db.create_or_update(&key, &value, 10).unwrap();

    let key = String::from("key");
    assert!(db.key_exists(&key).unwrap());
    assert!(!db.key_exists("other").unwrap());
}

#[test]
fn test_database_thing() {
    let mut db = DatabaseManager::open("cache").unwrap();
    db.create_table().unwrap();
    db.create_or_update("a", "1", 1).unwrap();
    let is_contained = db.key_exists("a");
    assert!(is_contained.unwrap());
    db.drop_table().unwrap();
}

#[test]
fn find_returns_stored_value_and_none_when_absent() {
    let mut db = DatabaseManager::open("store").unwrap();
    assert_eq!(db.find("k").unwrap(), None);
    db.create_or_update("k", "v1", 3).unwrap();
    assert_eq!(db.find("k").unwrap(), Some(String::from("v1")));
}

#[test]
fn upsert_replaces_value_in_place() {
    let mut db = DatabaseManager::open("store").unwrap();
    db.create_or_update("k", "v1", 3).unwrap();
    db.create_or_update("k", "v2", 4).unwrap();
    assert_eq!(db.find("k").unwrap(), Some(String::from("v2")));
}

#[test]
fn destroy_removes_only_that_key_and_tolerates_absent_keys() {
    let mut db = DatabaseManager::open("store").unwrap();
    db.create_or_update("a", "1", 1).unwrap();
    db.create_or_update("b", "2", 1).unwrap();
    db.destroy("a").unwrap();
    db.destroy("missing").unwrap();
    assert_eq!(db.find("a").unwrap(), None);
    assert_eq!(db.find("b").unwrap(), Some(String::from("2")));
}

#[test]
fn destroy_all_removes_every_row() {
    let mut db = DatabaseManager::open("store").unwrap();
    db.create_or_update("a", "1", 1).unwrap();
    db.create_or_update("b", "2", 1).unwrap();
    db.destroy_all().unwrap();
    assert!(!db.key_exists("a").unwrap());
    assert!(!db.key_exists("b").unwrap());
}

#[test]
fn table_name_with_quotes_is_data_not_syntax() {
    let mut db = DatabaseManager::open("x'); DROP TABLE entries; --").unwrap();
    db.create_or_update("k", "v", 1).unwrap();
    assert_eq!(db.find("k").unwrap(), Some(String::from("v")));
}

#[test]
fn operations_after_drop_table_report_query_failure() {
    let mut db = DatabaseManager::open("store").unwrap();
    db.drop_table().unwrap();
    assert_eq!(db.find("k"), Err(deep_pockets::error::CacheError::QueryFailure));
    db.create_table().unwrap();
    assert_eq!(db.find("k").unwrap(), None);
}
