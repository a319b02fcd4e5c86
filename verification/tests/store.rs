use objstore::digest::{digest, to_hex, verify};
use objstore::storage::Storage;
use objstore::text::{bucket_name_ok, join_path, object_key_ok, str_eq, str_has_prefix, str_lt};
use objstore::types::StorageError;

#[test]
fn bucket_name_length_two_is_rejected() {
    let mut s = Storage::new("data");
    let r = s.create_bucket("ab", 1);
    assert!(matches!(r, Err(StorageError::InvalidBucketName(_))));
    assert!(s.list_buckets().is_empty());
}

#[test]
fn bucket_name_length_thirty_is_accepted() {
    let mut s = Storage::new("data");
    let name = "abcDEF0123456789_-abcDEF012345";
    assert_eq!(name.len(), 30);
    let info = s.create_bucket(name, 7).unwrap();
    assert_eq!(info.name, name);
    assert_eq!(info.object_count, 0);
    assert_eq!(info.total_size, 0);
}

#[test]
fn bucket_name_bad_characters_are_rejected() {
    let mut s = Storage::new("data");
    assert!(matches!(
        s.create_bucket("has space", 1),
        Err(StorageError::InvalidBucketName(_))
    ));
    assert!(matches!(
        s.create_bucket("dots.not.ok", 1),
        Err(StorageError::InvalidBucketName(_))
    ));
}

#[test]
fn key_starting_with_separator_is_rejected() {
    let mut s = Storage::new("data");
    s.create_bucket("bucket-one", 1).unwrap();
    let r = s.put_object("bucket-one", "/etc/passwd", b"x", "text/plain", None, 2);
    assert!(matches!(r, Err(StorageError::InvalidObjectKey(_))));
}

#[test]
fn key_with_traversal_segment_is_rejected() {
    let mut s = Storage::new("data");
    s.create_bucket("bucket-one", 1).unwrap();
    let r = s.put_object("bucket-one", "a/../b", "x".as_bytes(), "text/plain", None, 2);
    assert!(matches!(r, Err(StorageError::InvalidObjectKey(_))));
    // dots inside a segment are fine
    let r2 = s.put_object("bucket-one", "a..b", b"x", "text/plain", None, 2);
    assert!(r2.is_ok());
}

#[test]
fn put_then_get_round_trip() {
    let mut s = Storage::new("data");
    s.create_bucket("photos", 1).unwrap();
    let data = b"some object content, byte for byte";
    let rec = s
        .put_object("photos", "albums/cat.jpg", data, "image/jpeg", None, 5)
        .unwrap();
    let (bytes, meta) = s.get_object("photos", "albums/cat.jpg", true).unwrap();
    assert_eq!(bytes.as_slice(), data.as_slice());
    assert_eq!(meta.size, data.len() as u64);
    assert_eq!(meta.content_type, "image/jpeg");
    // the digests recomputed from the returned bytes equal the recorded ones
    let fresh = digest(&bytes);
    assert_eq!(fresh.md5, meta.checksums.md5);
    assert_eq!(fresh.sha256, meta.checksums.sha256);
    assert_eq!(rec.sha256_checksum, meta.checksums.sha256);
    assert_eq!(meta.created_at, 5);
    assert_eq!(meta.modified_at, 5);
}

#[test]
fn upsert_keeps_one_record_reflecting_second_write() {
    let mut s = Storage::new("data");
    s.create_bucket("docs", 1).unwrap();
    let first = s.put_object("docs", "readme", b"first version", "text/plain", None, 2).unwrap();
    let second = s.put_object("docs", "readme", b"second, longer version", "text/plain", None, 9)
        .unwrap();
    assert_eq!(first.id, second.id);
    assert_eq!(second.created_at, 2);
    assert_eq!(second.modified_at, 9);
    let listing = s.list_objects("docs", None).unwrap();
    assert_eq!(listing.len(), 1);
    let (bytes, meta) = s.get_object("docs", "readme", true).unwrap();
    assert_eq!(bytes.as_slice(), b"second, longer version".as_slice());
    assert_eq!(meta.size, 22);
    let stats = s.get_bucket_stats("docs").unwrap();
    assert_eq!(stats.0, 1);
    assert_eq!(stats.1, 22);
}

#[test]
fn second_create_of_same_bucket_fails() {
    let mut s = Storage::new("data");
    s.create_bucket("unique-name", 1).unwrap();
    let r = s.create_bucket("unique-name", 2);
    match r {
        Err(StorageError::BucketAlreadyExists(n)) => assert_eq!(n, "unique-name"),
        other => panic!("expected BucketAlreadyExists, got {:?}", other),
    }
    assert_eq!(s.list_buckets().len(), 1);
}

#[test]
fn delete_non_empty_bucket_needs_force() {
    let mut s = Storage::new("data");
    s.create_bucket("full", 1).unwrap();
    s.put_object("full", "one", b"payload", "application/octet-stream", None, 2).unwrap();
    match s.delete_bucket("full", false) {
        Err(StorageError::BucketNotEmpty(n)) => assert_eq!(n, "full"),
        other => panic!("expected BucketNotEmpty, got {:?}", other),
    }
    // still intact
    assert!(s.get_object("full", "one", true).is_ok());
    // forced delete removes the bucket and everything in it
    s.delete_bucket("full", true).unwrap();
    assert!(s.list_buckets().is_empty());
    assert!(matches!(
        s.get_object("full", "one", true),
        Err(StorageError::BucketNotFound(_))
    ));
}

#[test]
fn delete_empty_bucket_without_force() {
    let mut s = Storage::new("data");
    s.create_bucket("hollow", 1).unwrap();
    s.delete_bucket("hollow", false).unwrap();
    assert!(s.list_buckets().is_empty());
}

#[test]
fn prefix_listing_is_exact_and_ordered() {
    let mut s = Storage::new("data");
    s.create_bucket("tree", 1).unwrap();
    // inserted out of order on purpose
    s.put_object("tree", "b/1", b"3", "text/plain", None, 2).unwrap();
    s.put_object("tree", "a/2", b"2", "text/plain", None, 3).unwrap();
    s.put_object("tree", "a/1", b"1", "text/plain", None, 4).unwrap();
    let listing = s.list_objects("tree", Some("a/")).unwrap();
    let keys: Vec<&str> = listing.iter().map(|o| o.key.as_str()).collect();
    assert_eq!(keys, vec!["a/1", "a/2"]);
    let all = s.list_objects("tree", None).unwrap();
    let all_keys: Vec<&str> = all.iter().map(|o| o.key.as_str()).collect();
    assert_eq!(all_keys, vec!["a/1", "a/2", "b/1"]);
}

#[test]
fn corruption_is_detected_by_strict_get() {
    let mut s = Storage::new("data");
    s.create_bucket("vault", 1).unwrap();
    let data = b"the untouched bytes";
    let rec = s.put_object("vault", "doc", data, "text/plain", None, 2).unwrap();
    // alter the bytes behind the object, bypassing the orchestrator
    let altered = b"tampered content!!";
    s.blobs.write(rec.storage_path.as_str(), altered);
    match s.get_object("vault", "doc", true) {
        Err(StorageError::ChecksumMismatch { expected, actual }) => {
            assert_eq!(expected, rec.sha256_checksum);
            assert_eq!(actual, digest(altered).sha256);
            assert_ne!(expected, actual);
        },
        other => panic!("expected ChecksumMismatch, got {:?}", other),
    }
    // a non-strict read hands the bytes back as they now are
    let (bytes, _) = s.get_object("vault", "doc", false).unwrap();
    assert_eq!(bytes.as_slice(), altered.as_slice());
}

#[test]
fn known_digests_of_abc() {
    let c = digest(b"abc");
    assert_eq!(c.md5, "900150983cd24fb0d6963f7d28e17f72");
    assert_eq!(
        c.sha256,
        "ba7816bf8f01cfea414140de5dae2223b00361a396177a9cb410ff61f20015ad"
    );
    assert!(verify(b"abc", &c).is_ok());
    match verify(b"abd", &c) {
        Err(StorageError::ChecksumMismatch { expected, actual }) => {
            assert_eq!(expected, c.sha256);
            assert_eq!(actual, digest(b"abd").sha256);
        },
        other => panic!("expected ChecksumMismatch, got {:?}", other),
    }
}

#[test]
fn hex_encoding_is_two_lowercase_digits_per_byte() {
    assert_eq!(to_hex(&[]), "");
    assert_eq!(to_hex(&[0x00, 0x0f, 0xa5, 0xff]), "000fa5ff");
}

#[test]
fn custom_metadata_is_replaced_whole_or_kept() {
    let mut s = Storage::new("data");
    s.create_bucket("meta", 1).unwrap();
    let first = vec![
        ("author".to_string(), "ada".to_string()),
        ("rev".to_string(), "1".to_string()),
    ];
    s.put_object("meta", "doc", b"v1", "text/plain", Some(&first), 2).unwrap();
    let (_, m1) = s.get_object("meta", "doc", true).unwrap();
    assert_eq!(m1.custom_metadata.len(), 2);
    // a put without metadata keeps the entries
    s.put_object("meta", "doc", b"v2", "text/plain", None, 3).unwrap();
    let (_, m2) = s.get_object("meta", "doc", true).unwrap();
    assert_eq!(m2.custom_metadata.len(), 2);
    // a put with metadata replaces the whole set
    let second = vec![("rev".to_string(), "2".to_string())];
    s.put_object("meta", "doc", b"v3", "text/plain", Some(&second), 4).unwrap();
    let (_, m3) = s.get_object("meta", "doc", true).unwrap();
    assert_eq!(m3.custom_metadata.len(), 1);
    assert_eq!(m3.custom_metadata[0].0, "rev");
    assert_eq!(m3.custom_metadata[0].1, "2");
}

#[test]
fn buckets_are_listed_in_name_order_with_stats() {
    let mut s = Storage::new("data");
    s.create_bucket("zeta", 1).unwrap();
    s.create_bucket("alpha", 2).unwrap();
    s.put_object("zeta", "k", b"12345", "text/plain", None, 3).unwrap();
    let infos = s.list_buckets();
    assert_eq!(infos.len(), 2);
    assert_eq!(infos[0].name, "alpha");
    assert_eq!(infos[1].name, "zeta");
    assert_eq!(infos[0].object_count, 0);
    assert_eq!(infos[1].object_count, 1);
    assert_eq!(infos[1].total_size, 5);
}

#[test]
fn missing_things_give_not_found_errors() {
    let mut s = Storage::new("data");
    s.create_bucket("there", 1).unwrap();
    assert!(matches!(
        s.get_object("absent-one", "k", true),
        Err(StorageError::BucketNotFound(_))
    ));
    assert!(matches!(
        s.get_object("there", "missing", true),
        Err(StorageError::ObjectNotFound(_))
    ));
    assert!(matches!(
        s.delete_object("there", "missing"),
        Err(StorageError::ObjectNotFound(_))
    ));
    assert!(matches!(
        s.delete_bucket("absent-one", false),
        Err(StorageError::BucketNotFound(_))
    ));
    assert!(matches!(
        s.get_bucket_stats("absent-one"),
        Err(StorageError::BucketNotFound(_))
    ));
    assert!(matches!(
        s.list_objects("absent-one", None),
        Err(StorageError::BucketNotFound(_))
    ));
}

#[test]
fn delete_object_removes_record_and_bytes() {
    let mut s = Storage::new("data");
    s.create_bucket("bin", 1).unwrap();
    let rec = s.put_object("bin", "a/b/c", b"xyz", "text/plain", None, 2).unwrap();
    s.delete_object("bin", "a/b/c").unwrap();
    assert!(matches!(
        s.get_object("bin", "a/b/c", true),
        Err(StorageError::ObjectNotFound(_))
    ));
    assert!(s.blobs.read(rec.storage_path.as_str()).is_none());
    assert_eq!(s.get_bucket_stats("bin").unwrap(), (0, 0));
}

#[test]
fn duplicate_content_is_found_per_bucket() {
    let mut s = Storage::new("data");
    s.create_bucket("dup", 1).unwrap();
    let rec = s.put_object("dup", "one", b"same bytes", "text/plain", None, 2).unwrap();
    let sums = digest(b"same bytes");
    let hit = s.db.find_duplicate(rec.bucket_id, &sums);
    assert_eq!(hit.unwrap(), rec.storage_path);
    assert!(s.db.find_duplicate(rec.bucket_id, &digest(b"other")).is_none());
    // an identical put to the same key succeeds and changes nothing visible
    s.put_object("dup", "one", b"same bytes", "text/plain", None, 3).unwrap();
    let (bytes, _) = s.get_object("dup", "one", true).unwrap();
    assert_eq!(bytes.as_slice(), b"same bytes".as_slice());
}

#[test]
fn text_helpers_order_and_prefix() {
    assert!(str_lt("a/1", "a/2"));
    assert!(str_lt("a", "ab"));
    assert!(!str_lt("b", "a"));
    assert!(str_eq("same", "same"));
    assert!(!str_eq("same", "same "));
    assert!(str_has_prefix("a/1", "a/"));
    assert!(!str_has_prefix("b/1", "a/"));
    assert_eq!(join_path("bucket", "key/file"), "bucket/key/file");
    assert!(bucket_name_ok("abc"));
    assert!(!bucket_name_ok("ab"));
    assert!(object_key_ok("a"));
    assert!(!object_key_ok(""));
    assert!(!object_key_ok("ends/"));
}

#[test]
fn namespace_entries_list_the_stored_paths() {
    let mut s = Storage::new("data");
    s.create_bucket("main-ns", 1).unwrap();
    s.create_bucket("other", 1).unwrap();
    s.put_object("main-ns", "x/1", b"a", "text/plain", None, 2).unwrap();
    s.put_object("main-ns", "y", b"b", "text/plain", None, 3).unwrap();
    s.put_object("other", "z", b"c", "text/plain", None, 4).unwrap();
    let mut paths = s.blobs.list_namespace_entries("main-ns");
    paths.sort();
    assert_eq!(paths, vec!["main-ns/x/1".to_string(), "main-ns/y".to_string()]);
}

#[test]
fn wall_clock_operations_behave_like_timestamped_ones() {
    let mut s = Storage::new("data");
    let info = s.create_bucket_now("clocked").unwrap();
    assert_eq!(info.name, "clocked");
    let rec = s.put_object_now("clocked", "k", b"v", "text/plain", None).unwrap();
    assert_eq!(rec.created_at, rec.modified_at);
    assert!(matches!(
        s.create_bucket_now("clocked"),
        Err(StorageError::BucketAlreadyExists(_))
    ));
    let later = s.put_object_now("clocked", "k", b"w", "text/plain", None).unwrap();
    assert_eq!(later.created_at, rec.created_at);
    assert!(later.modified_at >= rec.modified_at);
    let (bytes, _) = s.get_object("clocked", "k", true).unwrap();
    assert_eq!(bytes.as_slice(), b"w".as_slice());
}

#[test]
fn paths_are_derived_from_base_bucket_and_key() {
    let s = Storage::new("/srv/objects");
    assert_eq!(s.get_bucket_path("pics"), "/srv/objects/pics");
    assert_eq!(s.get_object_path("pics", "a/b"), "/srv/objects/pics/a/b");
}
