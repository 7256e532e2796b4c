use lstore::columns::ColumnStore;
use lstore::directory::PageDirectory;
use lstore::page::{Page, PageFull, KEY_WIDTH, PAGE_CAPACITY, PAGE_SIZE, SLOT_SIZE, VALUE_WIDTH};
use lstore::storage::{Change, RecordNotFound, Storage};
use lstore::table::Record;

#[test]
fn page_capacity_follows_from_the_sizes() {
    assert_eq!(SLOT_SIZE, KEY_WIDTH + VALUE_WIDTH);
    assert_eq!(SLOT_SIZE, 16);
    assert_eq!(PAGE_CAPACITY, PAGE_SIZE / SLOT_SIZE);
    assert_eq!(PAGE_CAPACITY, 256);
}

#[test]
fn page_takes_values_until_it_is_full() {
    let mut page = Page::new();
    assert_eq!(page.occupancy(), 0);
    assert!(page.has_capacity(Some(1)));
    let mut i = 0;
    while i < PAGE_CAPACITY {
        assert!(page.has_capacity(None));
        assert_eq!(page.insert(Some(i as i64)), Ok(i));
        i += 1;
    }
    assert_eq!(page.occupancy(), 256);
    assert!(!page.has_capacity(Some(1)));
    assert_eq!(page.insert(Some(1)), Err(PageFull));
    assert_eq!(page.occupancy(), 256);
    assert_eq!(page.read(0), Some(0));
    assert_eq!(page.read(255), Some(255));
    assert_eq!(page.read(256), None);
}

#[test]
fn page_reads_and_clears_slots() {
    let mut page = Page::new();
    assert_eq!(page.read(0), None);
    assert_eq!(page.insert(Some(4)), Ok(0));
    assert_eq!(page.insert(None), Ok(1));
    assert_eq!(page.insert(Some(-6)), Ok(2));
    assert_eq!(page.read(0), Some(4));
    assert_eq!(page.read(1), None);
    assert_eq!(page.read(2), Some(-6));
    assert_eq!(page.read(3), None);
    page.clear(0);
    page.clear(7);
    assert_eq!(page.read(0), None);
    assert_eq!(page.read(2), Some(-6));
    assert_eq!(page.occupancy(), 3);
    assert_eq!(page.insert(Some(8)), Ok(3));
}

#[test]
fn directory_hands_out_pages_in_order() {
    let mut directory = PageDirectory::new();
    assert_eq!(directory.num_pages(), 0);
    assert_eq!(directory.allocate(), 0);
    assert_eq!(directory.allocate(), 1);
    assert_eq!(directory.num_pages(), 2);
    assert_eq!(directory.insert(1, Some(3)), Ok(0));
    assert_eq!(directory.insert(1, Some(4)), Ok(1));
    assert_eq!(directory.insert(0, Some(5)), Ok(0));
    assert_eq!(directory.occupancy(0), 1);
    assert_eq!(directory.occupancy(1), 2);
    assert_eq!(directory.read(1, 1), Some(4));
    assert_eq!(directory.read(0, 0), Some(5));
    assert_eq!(directory.read(0, 1), None);
    directory.clear(1, 0);
    assert_eq!(directory.read(1, 0), None);
    assert_eq!(directory.read(1, 1), Some(4));
}

#[test]
fn columns_spill_into_new_pages() {
    let mut columns = ColumnStore::new(2);
    assert_eq!(columns.column_count(), 2);
    let mut i = 0;
    while i < 1030 {
        columns.append_base(0, Some(i));
        columns.append_tail(1, Some(-i));
        if i % 2 == 0 {
            columns.append_base(1, Some(i * 2));
        }
        i += 1;
    }
    assert_eq!(columns.page_count(), 5 + 3 + 5);
    assert_eq!(columns.read_base(0, 0), Some(0));
    assert_eq!(columns.read_base(0, 255), Some(255));
    assert_eq!(columns.read_base(0, 256), Some(256));
    assert_eq!(columns.read_base(0, 511), Some(511));
    assert_eq!(columns.read_base(0, 512), Some(512));
    assert_eq!(columns.read_base(0, 1029), Some(1029));
    assert_eq!(columns.read_base(0, 1030), None);
    assert_eq!(columns.read_base(1, 514), Some(2056));
    assert_eq!(columns.read_base(1, 515), None);
    assert_eq!(columns.read_tail(1, 1024), Some(-1024));
    assert_eq!(columns.read_tail(0, 0), None);
    columns.clear_base(0, 512);
    columns.clear_base(0, 5000);
    assert_eq!(columns.read_base(0, 512), None);
    assert_eq!(columns.read_base(0, 511), Some(511));
    assert_eq!(columns.read_base(0, 513), Some(513));
    assert_eq!(columns.read_tail(1, 512), Some(-512));
}

#[test]
fn storage_keeps_every_version() {
    let mut storage = Storage::new(3);
    assert_eq!(storage.column_count(), 3);
    assert_eq!(storage.insert(&vec![Some(1), Some(10), None]), 0);
    assert_eq!(storage.insert(&vec![Some(2), Some(20), Some(200)]), 1);
    assert_eq!(storage.num_records(), 2);
    assert_eq!(storage.now(), 2);
    assert_eq!(storage.update(0, &vec![Change::Keep, Change::Write(Some(11)), Change::Keep]), Ok(()));
    assert_eq!(storage.update(0, &vec![Change::Keep, Change::Keep, Change::Write(Some(5))]), Ok(()));
    assert_eq!(storage.update(0, &vec![Change::Keep, Change::Write(None), Change::Keep]), Ok(()));
    assert_eq!(storage.now(), 5);
    assert_eq!(storage.read(0, 1, None), None);
    assert_eq!(storage.read(0, 2, None), Some(5));
    assert_eq!(storage.read(0, 0, None), Some(1));
    assert_eq!(storage.read(0, 1, Some(0)), Some(10));
    assert_eq!(storage.read(0, 1, Some(1)), Some(10));
    assert_eq!(storage.read(0, 1, Some(2)), Some(11));
    assert_eq!(storage.read(0, 1, Some(3)), Some(11));
    assert_eq!(storage.read(0, 1, Some(4)), None);
    assert_eq!(storage.read(0, 2, Some(2)), None);
    assert_eq!(storage.read(0, 2, Some(3)), Some(5));
    assert_eq!(storage.read(1, 2, Some(0)), None);
    assert_eq!(storage.read(1, 2, Some(1)), Some(200));
    assert_eq!(storage.read(1, 2, Some(usize::MAX)), Some(200));
    assert_eq!(storage.read(7, 0, None), None);
}

#[test]
fn storage_retires_deleted_records() {
    let mut storage = Storage::new(2);
    storage.insert(&vec![Some(1), Some(10)]);
    storage.insert(&vec![Some(2), Some(20)]);
    assert!(storage.contains(0));
    assert_eq!(storage.delete(0), Ok(()));
    assert!(!storage.contains(0));
    assert!(storage.contains(1));
    assert!(!storage.contains(2));
    assert_eq!(storage.read(0, 1, None), None);
    assert_eq!(storage.read(0, 1, Some(0)), None);
    assert_eq!(storage.read(1, 1, None), Some(20));
    assert_eq!(storage.delete(0), Err(RecordNotFound));
    assert_eq!(storage.delete(5), Err(RecordNotFound));
    assert_eq!(storage.update(0, &vec![Change::Keep, Change::Write(Some(1))]), Err(RecordNotFound));
    assert_eq!(storage.update(9, &vec![Change::Keep, Change::Keep]), Err(RecordNotFound));
    assert_eq!(storage.now(), 2);
    assert_eq!(storage.insert(&vec![Some(1), Some(30)]), 2);
    assert_eq!(storage.num_records(), 3);
}

#[test]
fn storage_scans_current_values() {
    let mut storage = Storage::new(2);
    storage.insert(&vec![Some(1), Some(10)]);
    storage.insert(&vec![Some(2), None]);
    storage.insert(&vec![Some(3), Some(10)]);
    storage.insert(&vec![Some(4), Some(12)]);
    storage.update(2, &vec![Change::Keep, Change::Write(Some(11))]).unwrap();
    storage.delete(3).unwrap();
    assert_eq!(storage.scan(1, Some(10)), vec![0]);
    assert_eq!(storage.scan(1, Some(11)), vec![2]);
    assert_eq!(storage.scan(1, None), vec![1]);
    assert!(storage.scan(1, Some(12)).is_empty());
    assert_eq!(storage.scan_range(1, 10, 12), vec![0, 2]);
    assert_eq!(storage.scan_range(1, 11, 11), vec![2]);
    assert!(storage.scan_range(1, 12, 10).is_empty());
    assert_eq!(storage.scan_range(0, i64::MIN, i64::MAX), vec![0, 1, 2]);
}

#[test]
fn record_holds_its_parts() {
    let record = Record::new(3, Some(9), vec![Some(9), None]);
    assert_eq!(record.rid, 3);
    assert_eq!(record.key, Some(9));
    assert_eq!(record.columns, vec![Some(9), None]);
}

#[test]
fn pages_are_allocated_when_the_current_one_is_full() {
    let mut storage = Storage::new(2);
    assert_eq!(storage.page_count(), 0);
    storage.insert(&vec![Some(0), None]);
    assert_eq!(storage.page_count(), 2);
    let mut key = 1;
    while key < 256 {
        storage.insert(&vec![Some(key), None]);
        key += 1;
    }
    assert_eq!(storage.page_count(), 2);
    storage.insert(&vec![Some(256), None]);
    assert_eq!(storage.page_count(), 4);
    storage.update(0, &vec![Change::Keep, Change::Write(Some(1))]).unwrap();
    assert_eq!(storage.page_count(), 6);
    storage.update(0, &vec![Change::Keep, Change::Write(Some(2))]).unwrap();
    assert_eq!(storage.page_count(), 6);
    storage.delete(0).unwrap();
    assert_eq!(storage.page_count(), 6);
    assert_eq!(storage.read(256, 0, None), Some(256));
    assert_eq!(storage.read(255, 0, None), Some(255));
}

#[test]
fn column_pages_are_counted() {
    let mut columns = ColumnStore::new(3);
    assert_eq!(columns.page_count(), 0);
    columns.append_base(1, Some(1));
    columns.append_base(1, Some(2));
    assert_eq!(columns.page_count(), 1);
    columns.append_tail(1, None);
    columns.append_base(0, None);
    assert_eq!(columns.page_count(), 3);
    columns.clear_base(1, 0);
    assert_eq!(columns.page_count(), 3);
    assert_eq!(columns.read_base(1, 0), None);
    assert_eq!(columns.read_base(1, 1), Some(2));
}

#[test]
fn storage_takes_more_columns_than_a_word_has_bits() {
    let width = 200;
    let mut storage = Storage::new(width);
    assert_eq!(storage.column_count(), 200);
    let row: Vec<Option<i64>> = (0..width).map(|c| Some(c as i64)).collect();
    assert_eq!(storage.insert(&row), 0);
    let mut changes = vec![Change::Keep; width];
    changes[0] = Change::Write(Some(-1));
    changes[63] = Change::Write(Some(-63));
    changes[64] = Change::Write(None);
    changes[130] = Change::Write(Some(-130));
    changes[199] = Change::Write(Some(-199));
    assert_eq!(storage.update(0, &changes), Ok(()));
    let mut later = vec![Change::Keep; width];
    later[65] = Change::Write(Some(-65));
    later[130] = Change::Write(Some(1300));
    assert_eq!(storage.update(0, &later), Ok(()));
    assert_eq!(storage.read(0, 0, None), Some(-1));
    assert_eq!(storage.read(0, 1, None), Some(1));
    assert_eq!(storage.read(0, 62, None), Some(62));
    assert_eq!(storage.read(0, 63, None), Some(-63));
    assert_eq!(storage.read(0, 64, None), None);
    assert_eq!(storage.read(0, 65, None), Some(-65));
    assert_eq!(storage.read(0, 66, None), Some(66));
    assert_eq!(storage.read(0, 127, None), Some(127));
    assert_eq!(storage.read(0, 128, None), Some(128));
    assert_eq!(storage.read(0, 130, None), Some(1300));
    assert_eq!(storage.read(0, 199, None), Some(-199));
    assert_eq!(storage.read(0, 130, Some(1)), Some(-130));
    assert_eq!(storage.read(0, 130, Some(0)), Some(130));
    assert_eq!(storage.read(0, 65, Some(1)), Some(65));
    assert_eq!(storage.read(0, 64, Some(0)), Some(64));
}
