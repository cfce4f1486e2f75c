use bucket_store::bucket::bucket::{Bucket, KeyValue};
use bucket_store::bucket::fs_metadata::Size;
use bucket_store::errors::BucketError;
use bucket_store::storage::store::{Storage, Store};

fn test_store(available_space: u64) -> Store {
    Store::create("storages/home", available_space, None).unwrap()
}

fn file_kv(key: Option<String>, name: &str) -> KeyValue {
    KeyValue {
        key,
        name: name.to_string(),
        value: Some(b"console.log(\"Hello world!\")".to_vec()),
    }
}

fn dir_kv(key: Option<String>, name: &str) -> KeyValue {
    KeyValue { key, name: name.to_string(), value: None }
}

#[test]
fn test_create_success() {
    let res = test_store(1000);
    let bucket = Bucket::create(res, "bucket-a", 9).unwrap();
    assert_eq!(bucket.available_space, 9);
    assert_eq!(bucket.usage_space, 0);
}

#[test]
fn test_create_failed() {
    let res = test_store(1000);
    let bucket = Bucket::create(res, "bucket-a", 1001).is_err();
    assert!(bucket);
}

#[test]
fn test_open() {
    let res = test_store(1000);
    let bucket_store_copy = res.clone();
    let _bucket = Bucket::create(bucket_store_copy, "bucket-a", 999).unwrap();
    let bucket = Bucket::open(
        res,
        "bucket-a",
        Size { available_space: 999, usage_space: 0 },
    )
        .unwrap();
    assert_eq!(bucket.usage_space, 0);
    assert_eq!(bucket.path, "storages/home/bucket-a");
    assert_eq!(bucket.available_space, 999);
}

#[test]
fn test_add_file() {
    let res = test_store(1000);
    let mut bucket = Bucket::create(res, "bucket-a", 30).unwrap();
    let key = bucket.add(&file_kv(None, "index.js")).unwrap();
    assert!(bucket.get(&key, true).is_ok());
    assert_eq!(bucket.usage_space, 27);
}

#[test]
fn test_add_dir() {
    let res = test_store(1000);
    let mut bucket = Bucket::create(res, "bucket-a", 9).unwrap();
    let key = bucket.add(&dir_kv(None, "index")).unwrap();
    let item = bucket.get(&key, true).unwrap();
    assert!(item.is_dir);
    assert_eq!(bucket.usage_space, 0);
}

#[test]
fn test_add_in_dir() {
    let res = test_store(1000);
    let mut bucket = Bucket::create(res, "bucket-a", 999).unwrap();
    let key = bucket.add(&dir_kv(None, "index")).unwrap();
    let key_2 = bucket.add(&dir_kv(Some(key.to_string()), "index")).unwrap();
    assert!(bucket.add(&file_kv(Some(key.to_string()), "index.js")).is_ok());
    assert!(bucket.add(&file_kv(Some(key_2), "index.js")).is_ok());
}

#[test]
fn test_adds() {
    let res = test_store(1000);
    let mut bucket = Bucket::create(res, "bucket-a", 999).unwrap();
    let key = bucket.add(&dir_kv(None, "index")).unwrap();
    let key_values = vec![
        dir_kv(Some(key.to_string()), "index"),
        file_kv(Some(key.to_string()), "index.js"),
    ];
    let keys = bucket.adds(key_values).unwrap();
    assert_eq!(keys.len(), 2);
    assert!(bucket.get(&keys[0], true).unwrap().is_dir);
    assert!(!bucket.get(&keys[1], true).unwrap().is_dir);
}

#[test]
fn test_get_file() {
    let res = test_store(1000);
    let mut bucket = Bucket::create(res, "bucket-a", 999).unwrap();
    let key = bucket.add(&file_kv(None, "index.js")).unwrap();
    let data = bucket.get(&key, true).unwrap();
    assert_eq!(data.name, "index.js");
}

#[test]
fn test_get_file_buffer() {
    let res = test_store(1000);
    let mut bucket = Bucket::create(res, "bucket-a", 999).unwrap();
    let key = bucket.add(&file_kv(None, "index.js")).unwrap();
    let data = bucket.get(&key, false).unwrap();
    assert_eq!(&data.name, "index.js");
    assert_eq!(&data.buffer.unwrap(), b"console.log(\"Hello world!\")");
}

#[test]
fn test_get_dir() {
    let res = test_store(1000);
    let mut bucket = Bucket::create(res, "bucket-a", 9).unwrap();
    let key = bucket.add(&dir_kv(None, "index")).unwrap();
    let data = bucket.get(&key, true).unwrap();
    assert_eq!(&data.name, "index");
}

#[test]
fn test_get_dir_err() {
    let res = test_store(1000);
    let mut bucket = Bucket::create(res, "bucket-a", 9).unwrap();
    let key = bucket.add(&dir_kv(None, "index")).unwrap();
    let data = bucket.get(&key, false);
    assert!(matches!(data, Err(BucketError::IsADirectory)));
}

#[test]
fn test_get_dir_items() {
    let res = test_store(1000);
    let mut bucket = Bucket::create(res, "bucket-a", 999).unwrap();
    let key = bucket.add(&dir_kv(None, "index")).unwrap();
    let key_values = vec![
        file_kv(Some(key.to_string()), "index.js"),
        file_kv(Some(key.to_string()), "test.js"),
    ];
    bucket.adds(key_values).unwrap();
    let data = bucket.get_items(None).unwrap();
    assert_eq!(data.len(), 1);
    assert_eq!(data[0].hash, "FD1EA89060210A4E");
    let data = bucket.get_items(Some(&key)).unwrap();
    assert_eq!(data.len(), 2);
}

#[test]
fn test_rename_files() {
    let res = test_store(1000);
    let mut bucket = Bucket::create(res, "bucket-a", 999).unwrap();
    let key = bucket.add(&dir_kv(None, "index")).unwrap();
    let key_2 = bucket.add(&dir_kv(Some(key.to_string()), "index")).unwrap();
    bucket.add(&file_kv(Some(key.to_string()), "index.js")).unwrap();
    let index_key = bucket.add(&file_kv(Some(key_2), "index.js")).unwrap();
    let hashes = bucket.rename(&index_key, &"test.js".to_string()).unwrap();
    assert_eq!(hashes.len(), 1);
    assert_ne!(hashes[0], index_key);
}

#[test]
fn test_rename_dir() {
    let res = test_store(1000);
    let mut bucket = Bucket::create(res, "bucket-a", 999).unwrap();
    let new_key = bucket.add(&dir_kv(None, "new")).unwrap();
    bucket.add(&dir_kv(Some(new_key), "index")).unwrap();
    let key = bucket.add(&dir_kv(None, "index")).unwrap();
    let key_2 = bucket.add(&dir_kv(Some(key.to_string()), "index")).unwrap();
    bucket.add(&file_kv(Some(key.to_string()), "index.js")).unwrap();
    bucket.add(&file_kv(Some(key_2), "index.js")).unwrap();
    let hashes = bucket.rename(&key, &"test".to_string()).unwrap();
    assert_eq!(hashes.len(), 4);
    for h in hashes.iter() {
        assert!(bucket.get(h, true).is_ok());
    }
    assert!(matches!(bucket.get(&key, true), Err(BucketError::NotFound)));
}

#[test]
fn test_move_dir() {
    let res = test_store(1000);
    let mut bucket = Bucket::create(res, "bucket-a", 999).unwrap();
    let new_key = bucket.add(&dir_kv(None, "new")).unwrap();
    bucket.add(&dir_kv(Some(new_key.clone()), "year")).unwrap();
    bucket.add(&dir_kv(None, "new_name")).unwrap();
    let key = bucket.add(&dir_kv(None, "dir_from")).unwrap();
    let key_2 = bucket.add(&dir_kv(Some(key.to_string()), "dir_from_child")).unwrap();
    bucket.add(&file_kv(Some(new_key.to_string()), "index.js")).unwrap();
    bucket.add(&file_kv(Some(key_2.clone()), "test.js")).unwrap();
    bucket.move_items(&new_key, &key_2).unwrap();
    assert!(matches!(bucket.get(&new_key, true), Err(BucketError::NotFound)));
    let items = bucket.get_items(Some(&key_2)).unwrap();
    assert_eq!(items.len(), 2);
}

#[test]
fn test_move_file() {
    let res = test_store(1000);
    let mut bucket = Bucket::create(res, "bucket-a", 999).unwrap();
    let new_key = bucket.add(&dir_kv(None, "new")).unwrap();
    bucket.add(&dir_kv(Some(new_key.clone()), "year")).unwrap();
    let key = bucket.add(&dir_kv(None, "index")).unwrap();
    let key_2 = bucket.add(&dir_kv(Some(key.to_string()), "index")).unwrap();
    bucket.add(&file_kv(Some(key.to_string()), "index.js")).unwrap();
    let index_key = bucket.add(&file_kv(Some(key_2), "test_1.js")).unwrap();
    bucket.move_items(&index_key, &new_key).unwrap();
    assert!(matches!(bucket.get(&index_key, true), Err(BucketError::NotFound)));
    let items = bucket.get_items(Some(&new_key)).unwrap();
    assert_eq!(items.len(), 2);
}

#[test]
fn test_copy_dir() {
    let res = test_store(1000);
    let mut bucket = Bucket::create(res, "bucket-a", 999).unwrap();
    let new_key = bucket.add(&dir_kv(None, "new")).unwrap();
    bucket.add(&dir_kv(Some(new_key.clone()), "year")).unwrap();
    let key = bucket.add(&dir_kv(None, "dir_from")).unwrap();
    let key_2 = bucket.add(&dir_kv(Some(key.to_string()), "dir_from_child")).unwrap();
    bucket.add(&file_kv(Some(new_key.to_string()), "index.js")).unwrap();
    bucket.add(&file_kv(Some(key_2.clone()), "test.js")).unwrap();
    let hashes = bucket.copy(&new_key, &key_2).unwrap();
    assert_eq!(hashes.len(), 3);
    assert!(bucket.get(&new_key, true).is_ok());
    for h in hashes.iter() {
        assert!(bucket.get(h, true).is_ok());
    }
}

#[test]
fn test_get_properties() {
    let res = test_store(1000);
    let mut bucket = Bucket::create(res, "bucket-a", 999).unwrap();
    let key = bucket.add(&file_kv(None, "index.js")).unwrap();
    let data = bucket.properties(&key).unwrap();
    assert_eq!(data.name, "index.js");
    assert_eq!(data.is_dir, false);
    assert_eq!(data.owner, 0);
    assert_eq!(data.size, 27);
}

#[test]
fn test_set_favorite() {
    let res = test_store(1000);
    let mut bucket = Bucket::create(res, "bucket-a", 999).unwrap();
    let key = bucket.add(&file_kv(None, "index.js")).unwrap();
    bucket.set_favorites(vec![key.clone()]).unwrap();
    let data = bucket.properties(&key).unwrap();
    assert_eq!(data.name, "index.js");
    assert_eq!(data.is_dir, false);
    assert_eq!(data.is_favorite, true);
}

#[test]
fn test_unset_favorite() {
    let res = test_store(1000);
    let mut bucket = Bucket::create(res, "bucket-a", 999).unwrap();
    let key = bucket.add(&file_kv(None, "index.js")).unwrap();
    bucket.set_favorites(vec![key.clone()]).unwrap();
    let data = bucket.properties(&key).unwrap();
    assert_eq!(data.is_favorite, true);
    bucket.unset_favorites(vec![key.clone()]).unwrap();
    let data = bucket.properties(&key).unwrap();
    assert_eq!(data.name, "index.js");
    assert_eq!(data.is_dir, false);
    assert_eq!(data.is_favorite, false);
}

#[test]
fn test_get_favorites() {
    let res = test_store(1000);
    let mut bucket = Bucket::create(res, "bucket-a", 999).unwrap();
    let key = bucket.add(&file_kv(None, "index.js")).unwrap();
    let key_2 = bucket.add(&file_kv(None, "index.html")).unwrap();
    bucket.set_favorites(vec![key]).unwrap();
    bucket.set_favorites(vec![key_2]).unwrap();
    let data = bucket.get_favorites().unwrap();
    assert_eq!(data.len(), 2);
}

#[test]
fn test_set_delete() {
    let res = test_store(1000);
    let mut bucket = Bucket::create(res, "bucket-a", 999).unwrap();
    let key = bucket.add(&file_kv(None, "index.js")).unwrap();
    bucket.set_delete(vec![key.clone()]).unwrap();
    let data = bucket.properties(&key).unwrap();
    assert_eq!(data.name, "index.js");
    assert_eq!(data.is_dir, false);
    assert_eq!(data.is_delete, true);
}

#[test]
fn test_unset_delete() {
    let res = test_store(1000);
    let mut bucket = Bucket::create(res, "bucket-a", 999).unwrap();
    let key = bucket.add(&file_kv(None, "index.js")).unwrap();
    bucket.set_delete(vec![key.clone()]).unwrap();
    let data = bucket.properties(&key).unwrap();
    assert_eq!(data.is_delete, true);
    bucket.restore_delete(vec![key.clone()]).unwrap();
    let restored_data = bucket.properties(&key).unwrap();
    assert_eq!(restored_data.name, "index.js");
    assert_eq!(restored_data.is_dir, false);
    assert_eq!(restored_data.is_delete, false);
}

#[test]
fn test_get_deletes() {
    let res = test_store(1000);
    let mut bucket = Bucket::create(res, "bucket-a", 999).unwrap();
    let key = bucket.add(&file_kv(None, "index.js")).unwrap();
    let key_2 = bucket.add(&file_kv(None, "index.html")).unwrap();
    bucket.set_delete(vec![key]).unwrap();
    bucket.set_delete(vec![key_2]).unwrap();
    let data = bucket.get_deletes().unwrap();
    assert_eq!(data.len(), 2);
}

#[test]
fn test_get_path_deletes() {
    let res = test_store(1000);
    let mut bucket = Bucket::create(res, "bucket-a", 999).unwrap();
    let folder = bucket.add(&dir_kv(None, "folder")).unwrap();
    let key = bucket.add(&file_kv(Some(folder), "index.js")).unwrap();
    let key_2 = bucket.add(&file_kv(None, "index.html")).unwrap();
    let data_1 = bucket.get_path(key).unwrap();
    let data_2 = bucket.get_path(key_2).unwrap();
    assert_eq!(data_2[0].title, "index.html");
    assert_eq!(data_1[0].title, "folder");
    assert_eq!(data_1[1].title, "index.js");
}

#[test]
fn test_remove_deletes() {
    let res = test_store(1000);
    let mut bucket = Bucket::create(res, "bucket-a", 999).unwrap();
    let key = bucket.add(&file_kv(None, "index.js")).unwrap();
    let key_2 = bucket.add(&file_kv(None, "index.html")).unwrap();
    bucket.set_delete(vec![key.clone()]).unwrap();
    bucket.set_delete(vec![key_2]).unwrap();
    bucket.remove(vec![key.clone()]).unwrap();
    let data = bucket.get_deletes().unwrap();
    assert_eq!(data.len(), 1);
}

#[test]
fn test_clear_trash_deletes() {
    let res = test_store(1000);
    let mut bucket = Bucket::create(res, "bucket-a", 999).unwrap();
    let key = bucket.add(&file_kv(None, "index.js")).unwrap();
    let key_2 = bucket.add(&file_kv(None, "index.html")).unwrap();
    bucket.set_delete(vec![key.clone()]).unwrap();
    bucket.set_delete(vec![key_2]).unwrap();
    bucket.clear_trash().unwrap();
    let data = bucket.get_deletes().unwrap();
    assert_eq!(data.len(), 0);
}
