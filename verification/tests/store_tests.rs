use bucket_store::errors::BucketError;
use bucket_store::storage::space::Space;
use bucket_store::storage::store::{Storage, Store};

#[test]
fn test_test_create_success() {
    let res = Store::create("storages/alpha", 1000, None).unwrap();
    assert_eq!(res.available_space, 1000);
}

#[test]
fn test_test_create_failed() {
    let res = Store::create_with_capacity("storages/beta", 10, None, 0);
    assert!(res.is_err());
    assert!(matches!(res, Err(BucketError::StorageFull)));
}

#[test]
fn test_test_open() {
    let res = Store::create_with_capacity("storages/gamma", 1000, None, 10000).unwrap();
    let is_uuid = res.uuid.len() == 36;
    assert_eq!(res.store_path, "storages/gamma");
    assert_eq!(is_uuid, true);
    assert_eq!(res.logging, false);
    assert_eq!(res.available_space, 1000);
    assert_eq!(res.usage_space, 0);
    assert_eq!(res.store_name, "gamma");
}

#[test]
fn store_budget_cannot_cover_the_device() {
    let res = Store::create("storages/delta", 1099511627776, None);
    assert!(matches!(res, Err(BucketError::StorageFull)));
    assert_eq!(Space::get_disc(), 1099511627776);
}

#[test]
fn every_error_has_a_diagnostic() {
    let errors = [
        BucketError::StorageFull,
        BucketError::NotFound,
        BucketError::AlreadyExists,
        BucketError::IsADirectory,
        BucketError::NotADirectory,
        BucketError::InvalidInput,
        BucketError::Io,
    ];
    for e in errors.iter() {
        assert!(!e.message().is_empty());
    }
}

#[test]
fn restore_clears_every_field() {
    let store = Store::create("storages/epsilon", 1000, None).unwrap();
    let blank = store.restore();
    assert_eq!(blank.uuid, "");
    assert_eq!(blank.store_path, "");
    assert_eq!(blank.available_space, 0);
    assert_eq!(blank.usage_space, 0);
    assert!(!blank.logging);
    assert_eq!(store.recalculation_usage_space(), 0);
}
