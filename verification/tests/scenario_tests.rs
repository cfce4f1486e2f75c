use bucket_store::bucket::bucket::{Bucket, KeyValue, RETENTION};
use bucket_store::bucket::fs_metadata::Size;
use bucket_store::errors::BucketError;
use bucket_store::storage::space::Space;
use bucket_store::storage::store::{Storage, Store};

fn fresh_bucket(bucket_space: u64) -> Bucket {
    let store = Store::create("storages/home", 1000, None).unwrap();
    Bucket::create(store, "bucket-a", bucket_space).unwrap()
}

fn file_kv(key: Option<String>, name: &str, value: &[u8]) -> KeyValue {
    KeyValue { key, name: name.to_string(), value: Some(value.to_vec()) }
}

fn dir_kv(key: Option<String>, name: &str) -> KeyValue {
    KeyValue { key, name: name.to_string(), value: None }
}

#[test]
fn scenario_create_and_add_file() {
    let mut bucket = fresh_bucket(30);
    let key = bucket
        .add(&file_kv(None, "index.js", b"console.log(\"Hello world!\")"))
        .unwrap();
    assert!(bucket.get(&key, true).is_ok());
    assert_eq!(bucket.usage_space, 27);
}

#[test]
fn scenario_nested_directory() {
    let mut bucket = fresh_bucket(999);
    let h1 = bucket.add(&dir_kv(None, "index")).unwrap();
    let h2 = bucket.add(&dir_kv(Some(h1.clone()), "index")).unwrap();
    assert!(bucket.get(&h1, true).unwrap().is_dir);
    assert!(bucket.get(&h2, true).unwrap().is_dir);
    assert_eq!(bucket.get_items(None).unwrap().len(), 1);
    assert_eq!(bucket.get_items(Some(&h1)).unwrap().len(), 1);
}

#[test]
fn scenario_rename_subtree_rekeys_everything() {
    let mut bucket = fresh_bucket(999);
    let h_index = bucket.add(&dir_kv(None, "index")).unwrap();
    let h_inner = bucket.add(&dir_kv(Some(h_index.clone()), "index")).unwrap();
    bucket
        .add(&file_kv(Some(h_index.clone()), "index.js", b"a"))
        .unwrap();
    bucket.add(&file_kv(Some(h_inner), "index.js", b"b")).unwrap();
    let hashes = bucket.rename(&h_index, &"test".to_string()).unwrap();
    assert_eq!(hashes.len(), 4);
    assert!(matches!(bucket.get(&h_index, true), Err(BucketError::NotFound)));
    for h in hashes.iter() {
        assert!(bucket.get(h, true).is_ok());
    }
}

#[test]
fn scenario_move_into_child_forbidden() {
    let mut bucket = fresh_bucket(999);
    let h_a = bucket.add(&dir_kv(None, "a")).unwrap();
    let h_b = bucket.add(&dir_kv(Some(h_a.clone()), "b")).unwrap();
    let res = bucket.move_items(&h_a, &h_b);
    assert!(matches!(res, Err(BucketError::InvalidInput)));
}

#[test]
fn scenario_move_onto_file_inside_source_is_a_cycle_first() {
    let mut bucket = fresh_bucket(999);
    let h_a = bucket.add(&dir_kv(None, "a")).unwrap();
    let h_file = bucket.add(&file_kv(Some(h_a.clone()), "b.txt", b"x")).unwrap();
    let moved = bucket.move_items(&h_a, &h_file);
    assert!(matches!(moved, Err(BucketError::InvalidInput)));
    let copied = bucket.copy(&h_a, &h_file);
    assert!(matches!(copied, Err(BucketError::InvalidInput)));
    let outside = bucket.add(&file_kv(None, "c.txt", b"x")).unwrap();
    let moved = bucket.move_items(&h_a, &outside);
    assert!(matches!(moved, Err(BucketError::NotADirectory)));
}

#[test]
fn directory_breadcrumbs_carry_the_trailing_slash() {
    let mut bucket = fresh_bucket(999);
    let h_a = bucket.add(&dir_kv(None, "a")).unwrap();
    let h_b = bucket.add(&dir_kv(Some(h_a.clone()), "b")).unwrap();
    let crumbs = bucket.get_path(h_b.clone()).unwrap();
    assert_eq!(crumbs.len(), 3);
    assert_eq!(crumbs[0].title, "a");
    assert_eq!(crumbs[1].title, "b");
    assert_eq!(crumbs[2].title, "");
    assert_eq!(crumbs[0].key, h_a);
    assert_eq!(crumbs[1].key, h_b);
    assert_eq!(crumbs[2].key, h_b);
    let titles: Vec<&str> = crumbs.iter().map(|c| c.title.as_str()).collect();
    assert_eq!(titles.join("/"), "a/b/");
}

#[test]
fn scenario_move_onto_itself_forbidden() {
    let mut bucket = fresh_bucket(999);
    let h_a = bucket.add(&dir_kv(None, "a")).unwrap();
    let res = bucket.move_items(&h_a, &h_a.clone());
    assert!(matches!(res, Err(BucketError::InvalidInput)));
}

#[test]
fn scenario_soft_delete_round_trip() {
    let mut bucket = fresh_bucket(999);
    let k1 = bucket.add(&file_kv(None, "one.txt", b"one")).unwrap();
    let k2 = bucket.add(&file_kv(None, "two.txt", b"two")).unwrap();
    bucket.set_delete(vec![k1.clone(), k2.clone()]).unwrap();
    assert_eq!(bucket.get_deletes().unwrap().len(), 2);
    bucket.restore_delete(vec![k1.clone()]).unwrap();
    assert_eq!(bucket.get_deletes().unwrap().len(), 1);
    let visible = bucket.get_items(None).unwrap();
    assert_eq!(visible.len(), 1);
    assert_eq!(visible[0].name, "one.txt");
}

#[test]
fn scenario_favorites_listing_skips_trashed() {
    let mut bucket = fresh_bucket(999);
    let k1 = bucket.add(&file_kv(None, "one.txt", b"one")).unwrap();
    let k2 = bucket.add(&file_kv(None, "two.txt", b"two")).unwrap();
    bucket.set_favorites(vec![k1.clone()]).unwrap();
    bucket.set_favorites(vec![k2.clone()]).unwrap();
    assert_eq!(bucket.get_favorites().unwrap().len(), 2);
    bucket.set_delete(vec![k2]).unwrap();
    let favs = bucket.get_favorites().unwrap();
    assert_eq!(favs.len(), 1);
    assert_eq!(favs[0].name, "one.txt");
}

#[test]
fn re_adding_a_deleted_path_recomputes_the_same_key() {
    let mut bucket = fresh_bucket(999);
    let kv = file_kv(None, "again.txt", b"x");
    let first = bucket.add(&kv).unwrap();
    bucket.remove(vec![first.clone()]).unwrap();
    let second = bucket.add(&kv).unwrap();
    assert_eq!(first, second);
}

#[test]
fn quota_grows_with_adds_and_shrinks_with_removes() {
    let mut bucket = fresh_bucket(30);
    let key = bucket.add(&file_kv(None, "a.bin", b"12345")).unwrap();
    assert_eq!(bucket.usage_space, 5);
    let too_big = bucket.add(&file_kv(None, "b.bin", &[0u8; 26]));
    assert!(matches!(too_big, Err(BucketError::StorageFull)));
    assert_eq!(bucket.usage_space, 5);
    bucket.remove(vec![key]).unwrap();
    assert_eq!(bucket.usage_space, 0);
}

#[test]
fn removing_several_files_refunds_their_sum() {
    let mut bucket = fresh_bucket(100);
    let k1 = bucket.add(&file_kv(None, "a.bin", b"12345")).unwrap();
    let k2 = bucket.add(&file_kv(None, "b.bin", b"123")).unwrap();
    bucket.add(&file_kv(None, "c.bin", b"1234567")).unwrap();
    assert_eq!(bucket.usage_space, 15);
    bucket.remove(vec![k1, k2]).unwrap();
    assert_eq!(bucket.usage_space, 7);
}

#[test]
fn duplicate_path_is_rejected() {
    let mut bucket = fresh_bucket(999);
    bucket.add(&file_kv(None, "same.txt", b"x")).unwrap();
    let res = bucket.add(&file_kv(None, "same.txt", b"y"));
    assert!(matches!(res, Err(BucketError::AlreadyExists)));
}

#[test]
fn missing_keys_are_not_found() {
    let mut bucket = fresh_bucket(999);
    let ghost_key = "0123456789ABCDEF".to_string();
    assert!(matches!(bucket.get(&ghost_key, true), Err(BucketError::NotFound)));
    assert!(matches!(bucket.properties(&ghost_key), Err(BucketError::NotFound)));
    assert!(matches!(
        bucket.set_favorites(vec![ghost_key.clone()]),
        Err(BucketError::NotFound)
    ));
    assert!(matches!(bucket.remove(vec![ghost_key]), Err(BucketError::NotFound)));
}

#[test]
fn listing_a_file_is_not_a_directory() {
    let mut bucket = fresh_bucket(999);
    let key = bucket.add(&file_kv(None, "plain.txt", b"x")).unwrap();
    assert!(matches!(bucket.get_items(Some(&key)), Err(BucketError::NotADirectory)));
    let res = bucket.add(&file_kv(Some(key), "child.txt", b"y"));
    assert!(matches!(res, Err(BucketError::NotADirectory)));
}

#[test]
fn slashes_in_names_are_rejected() {
    let mut bucket = fresh_bucket(999);
    let res = bucket.add(&file_kv(None, "a/b.txt", b"x"));
    assert!(matches!(res, Err(BucketError::InvalidInput)));
    let res = bucket.add(&file_kv(None, "", b"x"));
    assert!(matches!(res, Err(BucketError::InvalidInput)));
}

#[test]
fn breadcrumbs_name_each_sub_path() {
    let mut bucket = fresh_bucket(999);
    let h_a = bucket.add(&dir_kv(None, "a")).unwrap();
    let h_b = bucket.add(&dir_kv(Some(h_a.clone()), "b")).unwrap();
    let h_f = bucket.add(&file_kv(Some(h_b.clone()), "c.txt", b"x")).unwrap();
    let crumbs = bucket.get_path(h_f.clone()).unwrap();
    assert_eq!(crumbs.len(), 3);
    assert_eq!(crumbs[0].title, "a");
    assert_eq!(crumbs[1].title, "b");
    assert_eq!(crumbs[2].title, "c.txt");
    assert_eq!(crumbs[0].key, h_a);
    assert_eq!(crumbs[1].key, h_b);
    assert_eq!(crumbs[2].key, h_f);
}

#[test]
fn favorites_follow_a_rename() {
    let mut bucket = fresh_bucket(999);
    let h_dir = bucket.add(&dir_kv(None, "docs")).unwrap();
    let h_f = bucket.add(&file_kv(Some(h_dir.clone()), "keep.txt", b"x")).unwrap();
    bucket.set_favorites(vec![h_f]).unwrap();
    bucket.rename(&h_dir, &"papers".to_string()).unwrap();
    let favs = bucket.get_favorites().unwrap();
    assert_eq!(favs.len(), 1);
    assert_eq!(favs[0].name, "keep.txt");
}

#[test]
fn copies_carry_no_marks() {
    let mut bucket = fresh_bucket(999);
    let h_dir = bucket.add(&dir_kv(None, "src")).unwrap();
    let h_f = bucket.add(&file_kv(Some(h_dir.clone()), "m.txt", b"x")).unwrap();
    let h_to = bucket.add(&dir_kv(None, "dst")).unwrap();
    bucket.set_favorites(vec![h_f]).unwrap();
    bucket.copy(&h_dir, &h_to).unwrap();
    assert_eq!(bucket.get_favorites().unwrap().len(), 1);
    assert_eq!(bucket.get_items(Some(&h_to)).unwrap().len(), 1);
}

#[test]
fn sweep_purges_only_past_the_retention_deadline() {
    let mut bucket = fresh_bucket(999);
    let key = bucket.add(&file_kv(None, "old.txt", b"x")).unwrap();
    bucket.set_delete_at(&vec![key.clone()], 100).unwrap();
    let kept = bucket.sweep_expired(100 + RETENTION).unwrap();
    assert_eq!(kept.len(), 0);
    assert!(bucket.get(&key, true).is_ok());
    let swept = bucket.sweep_expired(100 + RETENTION + 1).unwrap();
    assert_eq!(swept.len(), 1);
    assert!(matches!(bucket.get(&key, true), Err(BucketError::NotFound)));
    assert_eq!(bucket.get_deletes().unwrap().len(), 0);
}

#[test]
fn read_shape_reports_type_size_and_mime() {
    let mut bucket = fresh_bucket(999);
    let key = bucket
        .add(&file_kv(None, "index.js", b"console.log(\"Hello world!\")"))
        .unwrap();
    let item = bucket.get(&key, true).unwrap();
    assert_eq!(item.file_type, "js");
    assert_eq!(item.mime_type, "text/javascript");
    assert_eq!(item.size, "27 B");
    let dir_key = bucket.add(&dir_kv(None, "plain")).unwrap();
    let dir_item = bucket.get(&dir_key, true).unwrap();
    assert_eq!(dir_item.mime_type, "text/plain");
    assert_eq!(dir_item.size, "0 B");
}

#[test]
fn removing_a_directory_takes_its_subtree() {
    let mut bucket = fresh_bucket(999);
    let h_dir = bucket.add(&dir_kv(None, "tree")).unwrap();
    let h_f = bucket.add(&file_kv(Some(h_dir.clone()), "leaf.txt", b"12345")).unwrap();
    bucket.remove(vec![h_dir.clone()]).unwrap();
    assert!(matches!(bucket.get(&h_dir, true), Err(BucketError::NotFound)));
    assert!(matches!(bucket.get(&h_f, true), Err(BucketError::NotFound)));
    assert_eq!(bucket.usage_space, 0);
}

#[test]
fn directory_size_sums_the_subtree() {
    let mut bucket = fresh_bucket(999);
    let h_dir = bucket.add(&dir_kv(None, "tree")).unwrap();
    bucket.add(&file_kv(Some(h_dir.clone()), "a.txt", b"12345")).unwrap();
    bucket.add(&file_kv(Some(h_dir), "b.txt", b"123")).unwrap();
    bucket.add(&file_kv(None, "outside.txt", b"1234567")).unwrap();
    let total = Space::dir_size(&bucket.db.paths, &bucket.entries, &"tree/".to_string());
    assert_eq!(total, 8);
}

#[test]
fn placeholder_space_summary() {
    let answer = Bucket::get_space().unwrap();
    assert_eq!(answer, "test");
}

#[test]
fn open_rejects_an_inconsistent_quota_pair() {
    let store = Store::create("storages/home", 1000, None).unwrap();
    let res = Bucket::open(store, "bucket-a", Size { available_space: 5, usage_space: 9 });
    assert!(matches!(res, Err(BucketError::InvalidInput)));
}
