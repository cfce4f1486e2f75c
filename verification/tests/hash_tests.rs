use bucket_store::bucket::fs_metadata::FsMetadata;
use bucket_store::calculate_hash;
use bucket_store::hashing::to_hex_upper;

#[test]
fn it_works() {
    for i in 0..10 {
        let result = calculate_hash("calculate");
        println!("{}", format!("{result:X}"));
        assert_eq!(result, 797949694947597695);
        let result = calculate_hash("—Åalculate");
        println!("{}", format!("{result:#X}"));
        let _ = i;
    }
}

#[test]
fn hex_rendering_matches_formatting() {
    assert_eq!(to_hex_upper(0), "0");
    assert_eq!(to_hex_upper(15), "F");
    assert_eq!(to_hex_upper(255), "FF");
    assert_eq!(to_hex_upper(797949694947597695), "B12E30513FB9D7F");
    assert_eq!(to_hex_upper(u64::MAX), "FFFFFFFFFFFFFFFF");
}

#[test]
fn textual_key_is_uppercase_hex_of_fingerprint() {
    assert_eq!(FsMetadata::calculate_hash("index"), "FD1EA89060210A4E");
    let n = calculate_hash("calculate");
    assert_eq!(FsMetadata::calculate_hash("calculate"), format!("{n:X}"));
}

#[test]
fn equal_paths_hash_equal() {
    assert_eq!(calculate_hash("files/a.txt"), calculate_hash("files/a.txt"));
    assert_ne!(calculate_hash("index"), calculate_hash("index/"));
}
