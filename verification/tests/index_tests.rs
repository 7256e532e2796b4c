use lstore::hash::{generate_hash, read_leading_u64, to_decimal};
use lstore::hashed::{HashIndex, INITIAL_BUCKETS};
use lstore::index::Index;
use lstore::ordered::OrderedIndex;
use lstore::prime::{find_prime, is_prime};
use lstore::query::Query;
use lstore::storage::{Change, Storage};
use lstore::table::Table;

fn storage_with(values: &[Option<i64>]) -> Storage {
    let mut storage = Storage::new(2);
    for (key, value) in values.iter().enumerate() {
        storage.insert(&vec![Some(key as i64), *value]);
    }
    storage
}

#[test]
fn hash_of_known_values() {
    assert_eq!(generate_hash(0, 101), 44);
    assert_eq!(generate_hash(1, 101), 13);
    assert_eq!(generate_hash(-1, 101), 59);
    assert_eq!(generate_hash(42, 211), 1);
    assert_eq!(generate_hash(100, 7), 5);
    assert_eq!(generate_hash(i64::MAX, 101), 17);
    assert_eq!(generate_hash(i64::MIN, 211), 123);
    assert_eq!(generate_hash(5, 1), 0);
}

#[test]
fn decimal_representation() {
    assert_eq!(to_decimal(0), b"0".to_vec());
    assert_eq!(to_decimal(7), b"7".to_vec());
    assert_eq!(to_decimal(10), b"10".to_vec());
    assert_eq!(to_decimal(-1), b"-1".to_vec());
    assert_eq!(to_decimal(906659671), b"906659671".to_vec());
    assert_eq!(to_decimal(i64::MAX), b"9223372036854775807".to_vec());
    assert_eq!(to_decimal(i64::MIN), b"-9223372036854775808".to_vec());
}

#[test]
fn leading_bytes_are_big_endian() {
    assert_eq!(read_leading_u64(&vec![0, 0, 0, 0, 0, 0, 0, 1, 9]), 1);
    assert_eq!(read_leading_u64(&vec![0, 0, 0, 0, 0, 0, 1, 0]), 256);
    assert_eq!(read_leading_u64(&vec![255; 8]), u64::MAX);
    assert_eq!(
        read_leading_u64(&vec![0x5f, 0xec, 0xeb, 0x66, 0xff, 0xc8, 0x6f, 0x38]),
        6912158355717386040
    );
}

#[test]
fn primes_are_recognised() {
    let primes = [2usize, 3, 5, 7, 11, 13, 101, 211, 431, 7919];
    for p in primes {
        assert!(is_prime(p));
    }
    let others = [0usize, 1, 4, 6, 9, 15, 25, 49, 202, 7917, 7921];
    for n in others {
        assert!(!is_prime(n));
    }
}

#[test]
fn next_prime_is_found() {
    assert_eq!(find_prime(0), Some(2));
    assert_eq!(find_prime(2), Some(2));
    assert_eq!(find_prime(14), Some(17));
    assert_eq!(find_prime(202), Some(211));
    assert_eq!(find_prime(211), Some(211));
    assert_eq!(find_prime(422), Some(431));
}

#[test]
fn ordered_index_keeps_order_and_ranges() {
    let mut ordered = OrderedIndex::new();
    assert!(ordered.insert(5, 2));
    assert!(ordered.insert(3, 9));
    assert!(ordered.insert(5, 1));
    assert!(ordered.insert(-4, 7));
    assert!(!ordered.insert(5, 2));
    assert_eq!(ordered.len(), 4);
    assert_eq!(ordered.entry(0), (-4, 7));
    assert_eq!(ordered.entry(1), (3, 9));
    assert_eq!(ordered.entry(2), (5, 1));
    assert_eq!(ordered.entry(3), (5, 2));
    assert_eq!(ordered.range(3, 5), vec![9, 1, 2]);
    assert_eq!(ordered.range(5, 5), vec![1, 2]);
    assert_eq!(ordered.range(-4, -4), vec![7]);
    assert_eq!(ordered.range(i64::MIN, i64::MAX), vec![7, 9, 1, 2]);
    assert!(ordered.range(4, 4).is_empty());
    assert!(ordered.range(6, 2).is_empty());
    assert!(ordered.contains(3, 9));
    assert!(!ordered.contains(3, 8));
    assert!(ordered.remove(3, 9));
    assert!(!ordered.remove(3, 9));
    assert_eq!(ordered.range(3, 5), vec![1, 2]);
    assert_eq!(ordered.len(), 3);
}

#[test]
fn hash_index_holds_what_was_put_in() {
    let mut hash = HashIndex::new(INITIAL_BUCKETS);
    assert_eq!(hash.bucket_count(), 101);
    assert!(hash.insert(10, 3));
    assert!(hash.insert(10, 1));
    assert!(hash.insert(11, 2));
    assert!(!hash.insert(10, 3));
    assert_eq!(hash.record_count(), 3);
    assert_eq!(hash.lookup(10), vec![1, 3]);
    assert_eq!(hash.lookup(11), vec![2]);
    assert!(hash.lookup(12).is_empty());
    assert!(hash.remove(10, 1));
    assert!(!hash.remove(10, 1));
    assert_eq!(hash.lookup(10), vec![3]);
    assert_eq!(hash.record_count(), 2);
}

#[test]
fn hash_index_grows_past_the_load_factor() {
    let mut hash = HashIndex::new(INITIAL_BUCKETS);
    let mut value = 0;
    while value < 75 {
        assert!(hash.insert(value, value as usize));
        hash.check_and_resize();
        value += 1;
    }
    assert_eq!(hash.bucket_count(), 101);
    assert!(hash.insert(75, 75));
    hash.check_and_resize();
    assert_eq!(hash.bucket_count(), 211);
    assert_eq!(hash.record_count(), 76);
    let mut value = 0;
    while value < 76 {
        assert_eq!(hash.lookup(value), vec![value as usize]);
        value += 1;
    }
    while value < 159 {
        assert!(hash.insert(value, value as usize));
        hash.check_and_resize();
        value += 1;
    }
    assert_eq!(hash.bucket_count(), 431);
    let mut value = 0;
    while value < 159 {
        assert_eq!(hash.lookup(value), vec![value as usize]);
        value += 1;
    }
}

#[test]
fn locate_without_an_index_scans() {
    let storage = storage_with(&[Some(5), Some(6), Some(5), None]);
    let index = Index::new(2, 0);
    assert!(!index.has_index(1));
    assert_eq!(index.bucket_count(1), 0);
    assert_eq!(index.locate(1, 5, &storage), vec![0, 2]);
    assert_eq!(index.locate(1, 6, &storage), vec![1]);
    assert!(index.locate(1, 7, &storage).is_empty());
    assert_eq!(index.locate_range(5, 6, 1, &storage), vec![0, 1, 2]);
    assert_eq!(index.locate_range(6, 5, 1, &storage), vec![0, 1, 2]);
}

#[test]
fn locate_with_an_index_finds_what_a_scan_finds() {
    let storage = storage_with(&[Some(5), Some(6), Some(5), None, Some(-2)]);
    let plain = Index::new(2, 0);
    let mut index = Index::new(2, 0);
    index.index_column(1, &storage);
    assert!(index.has_index(1));
    assert!(!index.has_index(0));
    assert_eq!(index.bucket_count(1), 101);
    let mut value = -3;
    while value < 8 {
        assert_eq!(index.locate(1, value, &storage), plain.locate(1, value, &storage));
        let mut found = index.locate_range(value, value + 2, 1, &storage);
        found.sort();
        assert_eq!(found, plain.locate_range(value, value + 2, 1, &storage));
        value += 1;
    }
    assert_eq!(index.locate(1, 5, &storage), vec![0, 2]);
    assert_eq!(index.locate_range(-2, 5, 1, &storage), vec![4, 0, 2]);
    assert_eq!(index.locate_range(5, -2, 1, &storage), vec![4, 0, 2]);
    assert_eq!(index.locate_range(6, 6, 1, &storage), vec![1]);
}

#[test]
fn index_column_skips_deleted_and_superseded_values() {
    let mut storage = storage_with(&[Some(5), Some(6), Some(5)]);
    storage.update(0, &vec![Change::Keep, Change::Write(Some(9))]).unwrap();
    storage.delete(1).unwrap();
    let mut index = Index::new(2, 0);
    index.index_column(1, &storage);
    assert_eq!(index.locate(1, 9, &storage), vec![0]);
    assert_eq!(index.locate(1, 5, &storage), vec![2]);
    assert!(index.locate(1, 6, &storage).is_empty());
    assert_eq!(index.locate_range(0, 10, 1, &storage), vec![2, 0]);
}

#[test]
fn index_entries_are_added_once_and_dropped() {
    let storage = Storage::new(2);
    let mut index = Index::new(2, 0);
    index.index_column(1, &storage);
    index.index_entry(1, 4, 50);
    index.index_entry(1, 4, 50);
    index.index_entry(1, 3, 50);
    index.index_entry(1, 8, 60);
    assert_eq!(index.locate(1, 50, &storage), vec![3, 4]);
    assert_eq!(index.locate_range(50, 60, 1, &storage), vec![3, 4, 8]);
    index.drop_entry(1, 4, 50);
    assert_eq!(index.locate(1, 50, &storage), vec![3]);
    index.drop_entry(1, 4, 50);
    assert_eq!(index.locate(1, 50, &storage), vec![3]);
    index.update_index(1, 3, 50, 60);
    assert!(index.locate(1, 50, &storage).is_empty());
    assert_eq!(index.locate(1, 60, &storage), vec![3, 8]);
    index.drop_index(1);
    assert!(!index.has_index(1));
    assert!(index.locate(1, 60, &storage).is_empty());
}

#[test]
fn index_hooks_leave_columns_without_an_index_alone() {
    let storage = Storage::new(2);
    let mut index = Index::new(2, 0);
    index.index_entry(1, 4, 50);
    index.update_index(1, 4, 50, 51);
    index.drop_entry(1, 4, 51);
    assert!(!index.has_index(1));
    assert!(index.locate(1, 50, &storage).is_empty());
    assert!(index.locate(1, 51, &storage).is_empty());
}

#[test]
fn no_entry_is_lost_across_a_resize() {
    let mut table = Table::new(2, String::from("Wide"), 0);
    table.create_index(0);
    let mut query = Query::new(table);
    let mut key = 0;
    while key < 75 {
        query.insert(key * 3, vec![Some(key)]).unwrap();
        key += 1;
    }
    assert_eq!(query.table().bucket_count(0), 101);
    query.insert(75 * 3, vec![Some(75)]).unwrap();
    assert_eq!(query.table().bucket_count(0), 211);
    key += 1;
    while key < 400 {
        query.insert(key * 3, vec![Some(key)]).unwrap();
        key += 1;
    }
    assert!(query.table().bucket_count(0) > 211);
    let mut key = 0;
    while key < 400 {
        let rows = query.select(0, Some(key * 3), None);
        assert_eq!(rows.len(), 1);
        assert_eq!(rows[0].rid, key as usize);
        assert!(query.select(0, Some(key * 3 + 1), None).is_empty());
        key += 1;
    }
}

#[test]
fn hash_index_remove_of_an_absent_entry_changes_nothing() {
    let mut hash = HashIndex::new(7);
    assert!(!hash.remove(3, 1));
    assert_eq!(hash.record_count(), 0);
    assert!(hash.insert(3, 1));
    assert!(!hash.remove(3, 2));
    assert!(!hash.remove(4, 1));
    assert_eq!(hash.record_count(), 1);
    assert_eq!(hash.lookup(3), vec![1]);
    hash.check_and_resize();
    assert_eq!(hash.bucket_count(), 7);
    let mut value = 10;
    while value < 15 {
        assert!(hash.insert(value, 0));
        value += 1;
    }
    hash.check_and_resize();
    assert_eq!(hash.bucket_count(), 17);
    assert_eq!(hash.record_count(), 6);
    assert_eq!(hash.lookup(3), vec![1]);
    assert_eq!(hash.lookup(12), vec![0]);
}
