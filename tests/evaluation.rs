use hashfunction_benchmarking::coltester::{count_collisions, digest_values, test_collisions_in_memory};
use hashfunction_benchmarking::dataset::{find_column, read_column, DatasetError};
use hashfunction_benchmarking::hasher::{Hasher, IdentityHasher};
use hashfunction_benchmarking::misc::{contains_name, registry_names, select_hash_functions};
use hashfunction_benchmarking::perftester::{hash_and_count_bytes, ThroughputReport};

fn strings(v: &[&str]) -> Vec<String> {
    v.iter().map(|s| s.to_string()).collect()
}

#[test]
fn identity_hash_collides_on_repeated_name() {
    let data = b"id,name\n1,alice\n2,bob\n3,alice\n";
    let (stream, report) = test_collisions_in_memory(data, "name", true, &IdentityHasher).ok().unwrap();
    assert_eq!(stream.values, strings(&["alice", "bob", "alice"]));
    assert!(stream.skipped.is_empty());
    assert_eq!(report.collision_count, 1);
    assert_eq!(report.first_seen.len(), 2);
    assert_eq!(report.first_seen[0], (b"alice".to_vec(), "alice".to_string()));
    assert_eq!(report.first_seen[1], (b"bob".to_vec(), "bob".to_string()));
    assert_eq!(report.collisions.len(), 1);
    assert_eq!(report.collisions[0].value, "alice");
    assert_eq!(report.collisions[0].original, "alice");
}

#[test]
fn stub_digest_collision_names_both_values() {
    let values = strings(&["first", "second"]);
    let digests = vec![vec![7u8, 7], vec![7u8, 7]];
    let report = count_collisions(&values, &digests, true);
    assert_eq!(report.collision_count, 1);
    assert_eq!(report.collisions.len(), 1);
    assert_eq!(report.collisions[0].value, "second");
    assert_eq!(report.collisions[0].original, "first");
    assert_eq!(report.first_seen, vec![(vec![7u8, 7], "first".to_string())]);
}

#[test]
fn collisions_not_kept_without_save_flag() {
    let values = strings(&["first", "second", "third"]);
    let digests = vec![vec![1u8], vec![1u8], vec![1u8]];
    let report = count_collisions(&values, &digests, false);
    assert_eq!(report.collision_count, 2);
    assert!(report.collisions.is_empty());
    assert_eq!(report.first_seen.len(), 1);
}

#[test]
fn distinct_digests_give_no_collision() {
    let values = strings(&["a", "b", "c", "d"]);
    let digests = vec![vec![1u8], vec![2u8], vec![1u8, 0], vec![]];
    let report = count_collisions(&values, &digests, true);
    assert_eq!(report.collision_count, 0);
    assert_eq!(report.first_seen.len(), values.len());
    assert!(report.collisions.is_empty());
}

#[test]
fn all_equal_values_collide_at_most_n_minus_one() {
    let data = b"v\nx\nx\nx\nx\nx\n";
    let (stream, report) = test_collisions_in_memory(data, "v", false, &IdentityHasher).ok().unwrap();
    assert_eq!(stream.values.len(), 5);
    assert_eq!(report.collision_count, 4);
}

#[test]
fn empty_column_has_no_collision() {
    let report = count_collisions(&Vec::new(), &Vec::new(), true);
    assert_eq!(report.collision_count, 0);
    assert!(report.first_seen.is_empty());
}

#[test]
fn rerun_gives_same_count() {
    let data = b"id,name\n1,x\n2,y\n3,x\n4,y\n5,z\n";
    let (_, a) = test_collisions_in_memory(data, "name", false, &IdentityHasher).ok().unwrap();
    let (_, b) = test_collisions_in_memory(data, "name", true, &IdentityHasher).ok().unwrap();
    assert_eq!(a.collision_count, 2);
    assert_eq!(a.collision_count, b.collision_count);
}

#[test]
fn missing_column_is_reported() {
    let data = b"id,name\n1,alice\n";
    match test_collisions_in_memory(data, "Name", false, &IdentityHasher) {
        Err(DatasetError::ColumnNotFound { column, headers }) => {
            assert_eq!(column, "Name");
            assert_eq!(headers, strings(&["id", "name"]));
        }
        _ => panic!("expected a missing column"),
    }
}

#[test]
fn unreadable_header_is_an_open_error() {
    let data: &[u8] = &[0xff, 0xfe, b',', b'a', b'\n', b'1', b',', b'2', b'\n'];
    assert!(matches!(read_column(data, "a"), Err(DatasetError::Open { .. })));
}

#[test]
fn malformed_row_is_skipped() {
    let data = b"a,b\n1,2\n3\n4,5\n";
    let stream = read_column(data, "b").ok().unwrap();
    assert_eq!(stream.values, strings(&["2", "5"]));
    assert_eq!(stream.skipped.len(), 1);
    assert_eq!(stream.skipped[0].record, 2);
    assert!(stream.skipped[0].reason.is_some());
}

#[test]
fn first_matching_header_wins() {
    let headers = strings(&["a", "b", "b"]);
    assert_eq!(find_column(&headers, "b"), Some(1));
    assert_eq!(find_column(&headers, "B"), None);
}

#[test]
fn identity_hasher_returns_input() {
    let h = IdentityHasher;
    assert_eq!(h.name(), "identity");
    assert_eq!(h.hash(b"abc"), b"abc".to_vec());
    let d = digest_values(&strings(&["é"]), &h);
    assert_eq!(d, vec![vec![0xc3u8, 0xa9]]);
}

#[test]
fn total_bytes_counts_utf8_bytes() {
    let values = strings(&["abc", "é", "", "日本"]);
    assert_eq!(hash_and_count_bytes(&values, &IdentityHasher), Some(3 + 2 + 0 + 6));
    assert_eq!(hash_and_count_bytes(&Vec::new(), &IdentityHasher), Some(0));
}

#[test]
fn throughput_rate_and_zero_time() {
    let r = ThroughputReport { total_bytes: 3_000, elapsed_nanos: 1_500_000_000 };
    assert_eq!(r.bytes_per_second(), Some(2_000));
    let z = ThroughputReport { total_bytes: 10, elapsed_nanos: 0 };
    assert_eq!(z.bytes_per_second(), None);
    let big = ThroughputReport { total_bytes: u64::MAX, elapsed_nanos: 1 };
    assert_eq!(big.bytes_per_second(), Some(u64::MAX as u128 * 1_000_000_000));
}

#[test]
fn unknown_hash_name_aborts_selection() {
    let available = strings(&["crc32", "md5", "sha3"]);
    let requested = strings(&["md5", "nope", "crc32", "other"]);
    let err = select_hash_functions(&available, &requested).err().unwrap();
    assert_eq!(err.unknown, strings(&["nope", "other"]));
    assert_eq!(err.available, available);
}

#[test]
fn selection_follows_registry_order() {
    let available = strings(&["crc32", "md5", "sha3"]);
    let requested = strings(&["sha3", "crc32"]);
    assert_eq!(select_hash_functions(&available, &requested).ok().unwrap(), vec![0, 2]);
    assert!(contains_name(&available, &"md5".to_string()));
    assert!(!contains_name(&available, &"MD5".to_string()));
}

#[test]
fn registry_names_in_order() {
    let names = registry_names(&vec![IdentityHasher, IdentityHasher]);
    assert_eq!(names, strings(&["identity", "identity"]));
}
