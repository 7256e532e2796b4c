use lstore::query::{Query, QueryError};
use lstore::table::Table;

fn grades(num_columns: usize, key: usize) -> Query {
    Query::new(Table::new(num_columns, String::from("Grades"), key))
}

fn indexed_grades(num_columns: usize, key: usize) -> Query {
    let mut table = Table::new(num_columns, String::from("Grades"), key);
    let mut column = 0;
    while column < num_columns {
        table.create_index(column);
        column += 1;
    }
    Query::new(table)
}

#[test]
fn scenario_insert_update_select_sum_delete() {
    let mut query = grades(5, 0);
    assert_eq!(query.insert(100, vec![None, None, None, None]), Ok(0));
    assert_eq!(query.update(1, None, Some(5)), Ok(1));
    let rows = query.select(0, Some(100), None);
    assert_eq!(rows.len(), 1);
    assert_eq!(rows[0].rid, 0);
    assert_eq!(rows[0].key, Some(100));
    assert_eq!(rows[0].columns, vec![Some(100), Some(5), None, None, None]);
    assert_eq!(query.sum(100, 100, 1), 5);
    assert_eq!(query.delete(0, Some(100)), Ok(1));
    assert!(query.select(0, Some(100), None).is_empty());
}

#[test]
fn scenario_with_every_column_indexed() {
    let mut query = indexed_grades(5, 0);
    assert_eq!(query.insert(100, vec![None, None, None, None]), Ok(0));
    assert_eq!(query.update(1, None, Some(5)), Ok(1));
    let rows = query.select(0, Some(100), None);
    assert_eq!(rows.len(), 1);
    assert_eq!(rows[0].columns, vec![Some(100), Some(5), None, None, None]);
    assert_eq!(query.select(1, Some(5), None).len(), 1);
    assert_eq!(query.sum(100, 100, 1), 5);
    assert_eq!(query.delete(0, Some(100)), Ok(1));
    assert!(query.select(0, Some(100), None).is_empty());
    assert!(query.select(1, Some(5), None).is_empty());
}

#[test]
fn insert_then_select_returns_the_row() {
    let mut query = grades(4, 0);
    assert_eq!(query.insert(7, vec![Some(1), None, Some(-3)]), Ok(0));
    let rows = query.select(0, Some(7), None);
    assert_eq!(rows.len(), 1);
    assert_eq!(rows[0].key, Some(7));
    assert_eq!(rows[0].columns, vec![Some(7), Some(1), None, Some(-3)]);
}

#[test]
fn insert_places_the_key_at_its_column() {
    let mut query = grades(4, 2);
    assert_eq!(query.insert(9, vec![Some(1), Some(2), Some(3)]), Ok(0));
    let rows = query.select(2, Some(9), None);
    assert_eq!(rows.len(), 1);
    assert_eq!(rows[0].key, Some(9));
    assert_eq!(rows[0].columns, vec![Some(1), Some(2), Some(9), Some(3)]);
}

#[test]
fn insert_rejects_a_wrong_number_of_values() {
    let mut query = grades(5, 0);
    assert_eq!(query.insert(1, vec![None, None, None]), Err(QueryError::InvalidArity));
    assert_eq!(
        query.insert(1, vec![None, None, None, None, None]),
        Err(QueryError::InvalidArity)
    );
    assert_eq!(query.table().num_records(), 0);
    assert!(query.select(0, Some(1), None).is_empty());
}

#[test]
fn insert_hands_out_ascending_identifiers() {
    let mut query = grades(2, 0);
    assert_eq!(query.insert(5, vec![Some(1)]), Ok(0));
    assert_eq!(query.insert(5, vec![Some(2)]), Ok(1));
    assert_eq!(query.insert(6, vec![Some(3)]), Ok(2));
    let rows = query.select(0, Some(5), None);
    assert_eq!(rows.len(), 2);
    assert_eq!(rows[0].rid, 0);
    assert_eq!(rows[1].rid, 1);
    assert_eq!(rows[1].columns, vec![Some(5), Some(2)]);
}

fn check_update_visibility(mut query: Query) {
    query.insert(1, vec![Some(10)]).unwrap();
    query.insert(2, vec![Some(10)]).unwrap();
    query.insert(3, vec![Some(11)]).unwrap();
    assert_eq!(query.update(1, Some(10), Some(20)), Ok(2));
    assert!(query.select(1, Some(10), None).is_empty());
    let rows = query.select(1, Some(20), None);
    assert_eq!(rows.len(), 2);
    assert_eq!(rows[0].columns, vec![Some(1), Some(20)]);
    assert_eq!(rows[1].columns, vec![Some(2), Some(20)]);
    assert_eq!(query.select(1, Some(11), None).len(), 1);
}

#[test]
fn update_is_visible_without_an_index() {
    check_update_visibility(grades(2, 0));
}

#[test]
fn update_is_visible_through_the_index() {
    check_update_visibility(indexed_grades(2, 0));
}

#[test]
fn update_to_null_and_back() {
    let mut query = indexed_grades(2, 0);
    query.insert(1, vec![Some(10)]).unwrap();
    assert_eq!(query.update(1, Some(10), None), Ok(1));
    assert!(query.select(1, Some(10), None).is_empty());
    assert_eq!(query.select(1, None, None).len(), 1);
    assert_eq!(query.update(1, None, Some(12)), Ok(1));
    assert_eq!(query.select(1, Some(12), None).len(), 1);
    assert!(query.select(1, None, None).is_empty());
}

#[test]
fn update_of_no_record_is_not_found() {
    let mut query = grades(2, 0);
    query.insert(1, vec![Some(10)]).unwrap();
    assert_eq!(query.update(1, Some(99), Some(5)), Err(QueryError::RecordNotFound));
    assert_eq!(query.select(1, Some(10), None).len(), 1);
}

#[test]
fn versioned_reads_are_stable() {
    let mut query = grades(2, 0);
    query.insert(1, vec![Some(0)]).unwrap();
    let mut seen: Vec<Vec<Option<i64>>> = Vec::new();
    let mut k = 0;
    while k < 5 {
        if k > 0 {
            assert_eq!(query.update(1, Some(k as i64 - 1), Some(k as i64)), Ok(1));
        }
        let rows = query.select(0, Some(1), Some(k));
        assert_eq!(rows.len(), 1);
        assert_eq!(rows[0].columns, vec![Some(1), Some(k as i64)]);
        seen.push(rows.into_iter().next().unwrap().columns);
        k += 1;
    }
    let mut version = 0;
    while version < 5 {
        let rows = query.select(0, Some(1), Some(version));
        assert_eq!(rows[0].columns, seen[version]);
        assert_eq!(rows[0].columns, vec![Some(1), Some(version as i64)]);
        version += 1;
    }
    let rows = query.select(0, Some(1), Some(100));
    assert_eq!(rows[0].columns, vec![Some(1), Some(4)]);
    let rows = query.select(0, Some(1), None);
    assert_eq!(rows[0].columns, vec![Some(1), Some(4)]);
}

#[test]
fn versioned_read_before_the_insert_is_null() {
    let mut query = grades(2, 0);
    query.insert(1, vec![Some(10)]).unwrap();
    query.insert(2, vec![Some(20)]).unwrap();
    let rows = query.select(0, Some(2), Some(0));
    assert_eq!(rows.len(), 1);
    assert_eq!(rows[0].rid, 1);
    assert_eq!(rows[0].key, None);
    assert_eq!(rows[0].columns, vec![None, None]);
    let rows = query.select(0, Some(2), Some(1));
    assert_eq!(rows[0].columns, vec![Some(2), Some(20)]);
}

#[test]
fn versioned_read_follows_the_table_clock() {
    let mut query = grades(3, 0);
    query.insert(1, vec![Some(10), Some(100)]).unwrap();
    query.insert(2, vec![Some(20), Some(200)]).unwrap();
    query.update(1, Some(10), Some(11)).unwrap();
    query.update(2, Some(200), Some(201)).unwrap();
    query.update(1, Some(20), Some(21)).unwrap();
    assert_eq!(query.select(0, Some(1), Some(1))[0].columns, vec![Some(1), Some(10), Some(100)]);
    assert_eq!(query.select(0, Some(1), Some(2))[0].columns, vec![Some(1), Some(11), Some(100)]);
    assert_eq!(query.select(0, Some(1), Some(4))[0].columns, vec![Some(1), Some(11), Some(100)]);
    assert_eq!(query.select(0, Some(2), Some(2))[0].columns, vec![Some(2), Some(20), Some(200)]);
    assert_eq!(query.select(0, Some(2), Some(3))[0].columns, vec![Some(2), Some(20), Some(201)]);
    assert_eq!(query.select(0, Some(2), Some(4))[0].columns, vec![Some(2), Some(21), Some(201)]);
}

fn check_delete(mut query: Query) {
    query.insert(1, vec![Some(10)]).unwrap();
    query.insert(2, vec![Some(20)]).unwrap();
    assert_eq!(query.delete(0, Some(1)), Ok(1));
    assert!(query.select(0, Some(1), None).is_empty());
    assert!(query.select(1, Some(10), None).is_empty());
    assert!(query.select_range(0, 0, 5, None).iter().all(|row| row.rid != 0));
    assert_eq!(query.delete(0, Some(1)), Err(QueryError::RecordNotFound));
    assert_eq!(query.select(0, Some(2), None).len(), 1);
    assert_eq!(query.update(0, Some(1), Some(4)), Err(QueryError::RecordNotFound));
    assert_eq!(query.increment(0, Some(1)), Err(QueryError::RecordNotFound));
    assert_eq!(query.insert(1, vec![Some(30)]), Ok(2));
    let rows = query.select(0, Some(1), None);
    assert_eq!(rows.len(), 1);
    assert_eq!(rows[0].rid, 2);
}

#[test]
fn delete_is_final_without_an_index() {
    check_delete(grades(2, 0));
}

#[test]
fn delete_is_final_through_the_index() {
    check_delete(indexed_grades(2, 0));
}

#[test]
fn delete_removes_every_match() {
    let mut query = indexed_grades(2, 0);
    query.insert(1, vec![Some(7)]).unwrap();
    query.insert(2, vec![Some(7)]).unwrap();
    query.insert(3, vec![Some(8)]).unwrap();
    assert_eq!(query.delete(1, Some(7)), Ok(2));
    assert!(query.select(0, Some(1), None).is_empty());
    assert!(query.select(0, Some(2), None).is_empty());
    assert_eq!(query.select(0, Some(3), None).len(), 1);
}

#[test]
fn increment_adds_one() {
    let mut query = indexed_grades(2, 0);
    query.insert(1, vec![Some(41)]).unwrap();
    query.insert(2, vec![Some(41)]).unwrap();
    query.insert(3, vec![Some(-1)]).unwrap();
    assert_eq!(query.increment(1, Some(41)), Ok(2));
    assert_eq!(query.select(1, Some(42), None).len(), 2);
    assert!(query.select(1, Some(41), None).is_empty());
    assert_eq!(query.increment(1, Some(-1)), Ok(1));
    assert_eq!(query.select(0, Some(3), None)[0].columns, vec![Some(3), Some(0)]);
}

#[test]
fn increment_fails_on_null_overflow_and_absence() {
    let mut query = grades(2, 0);
    query.insert(1, vec![None]).unwrap();
    query.insert(2, vec![Some(i64::MAX)]).unwrap();
    assert_eq!(query.increment(1, None), Err(QueryError::NullValue));
    assert_eq!(query.increment(1, Some(i64::MAX)), Err(QueryError::Overflow));
    assert_eq!(query.increment(1, Some(5)), Err(QueryError::RecordNotFound));
    assert_eq!(query.select(0, Some(1), None)[0].columns, vec![Some(1), None]);
    assert_eq!(query.select(0, Some(2), None)[0].columns, vec![Some(2), Some(i64::MAX)]);
    assert_eq!(query.table().num_records(), 2);
}

#[test]
fn increment_of_null_without_a_match_is_not_found() {
    let mut query = grades(2, 0);
    query.insert(1, vec![Some(3)]).unwrap();
    assert_eq!(query.increment(1, None), Err(QueryError::RecordNotFound));
}

fn check_ranges(mut query: Query) {
    let mut key = 0;
    while key < 10 {
        query.insert(key, vec![Some(key * 10)]).unwrap();
        key += 1;
    }
    let forward: Vec<usize> = query.select_range(0, 3, 6, None).iter().map(|row| row.rid).collect();
    let backward: Vec<usize> =
        query.select_range(0, 6, 3, None).iter().map(|row| row.rid).collect();
    assert_eq!(forward, vec![3, 4, 5, 6]);
    assert_eq!(backward, forward);
    assert_eq!(query.select_range(1, 30, 30, None).len(), 1);
    assert!(query.select_range(1, 31, 39, None).is_empty());
    assert_eq!(query.sum(3, 6, 1), 30 + 40 + 50 + 60);
    assert_eq!(query.sum(6, 3, 1), 30 + 40 + 50 + 60);
    assert_eq!(query.sum(20, 30, 1), 0);
    assert_eq!(query.sum(0, 9, 0), 45);
}

#[test]
fn ranges_include_both_ends_without_an_index() {
    check_ranges(grades(2, 0));
}

#[test]
fn ranges_include_both_ends_through_the_index() {
    check_ranges(indexed_grades(2, 0));
}

fn check_sum_skips_deleted(mut query: Query) {
    query.insert(1, vec![Some(10)]).unwrap();
    query.insert(2, vec![Some(20)]).unwrap();
    query.insert(3, vec![Some(30)]).unwrap();
    query.insert(4, vec![None]).unwrap();
    assert_eq!(query.sum(1, 4, 1), 60);
    assert_eq!(query.delete(0, Some(2)), Ok(1));
    assert_eq!(query.sum(1, 4, 1), 40);
    assert_eq!(query.sum(2, 2, 1), 0);
    assert_eq!(query.sum_version(1, 4, 1, 100), 40);
}

#[test]
fn sum_skips_deleted_records_without_an_index() {
    check_sum_skips_deleted(grades(2, 0));
}

#[test]
fn sum_skips_deleted_records_through_the_index() {
    check_sum_skips_deleted(indexed_grades(2, 0));
}

#[test]
fn sum_version_reads_the_past() {
    let mut query = grades(2, 0);
    query.insert(1, vec![Some(10)]).unwrap();
    query.insert(2, vec![Some(20)]).unwrap();
    query.update(1, Some(10), Some(15)).unwrap();
    query.update(1, Some(20), Some(25)).unwrap();
    assert_eq!(query.sum_version(1, 2, 1, 0), 10);
    assert_eq!(query.sum_version(1, 2, 1, 1), 30);
    assert_eq!(query.sum_version(1, 2, 1, 2), 35);
    assert_eq!(query.sum_version(1, 2, 1, 3), 40);
    assert_eq!(query.sum(1, 2, 1), 40);
}

#[test]
fn sum_does_not_overflow() {
    let mut query = grades(2, 0);
    query.insert(1, vec![Some(i64::MAX)]).unwrap();
    query.insert(2, vec![Some(i64::MAX)]).unwrap();
    query.insert(3, vec![Some(i64::MIN)]).unwrap();
    assert_eq!(query.sum(1, 2, 1), 2 * (i64::MAX as i128));
    assert_eq!(query.sum(3, 3, 1), i64::MIN as i128);
}

#[test]
fn records_cross_page_boundaries() {
    let mut query = grades(2, 0);
    assert_eq!(query.insert(0, vec![Some(-1000)]), Ok(0));
    let mut key = 1;
    while key < 1500 {
        assert_eq!(query.insert(key, vec![Some(key + 1)]), Ok(key as usize));
        key += 1;
    }
    assert_eq!(query.select(0, Some(511), None)[0].columns, vec![Some(511), Some(512)]);
    assert_eq!(query.select(0, Some(512), None)[0].columns, vec![Some(512), Some(513)]);
    assert_eq!(query.select(0, Some(1499), None)[0].columns, vec![Some(1499), Some(1500)]);
    let mut round = 0;
    while round < 600 {
        assert_eq!(query.increment(1, Some(-1000 + round)), Ok(1));
        round += 1;
    }
    assert_eq!(query.select(0, Some(0), None)[0].columns, vec![Some(0), Some(-400)]);
    assert_eq!(query.select(0, Some(0), Some(1500 + 511))[0].columns, vec![Some(0), Some(-488)]);
    assert_eq!(query.select(0, Some(0), Some(1500 + 512))[0].columns, vec![Some(0), Some(-487)]);
    assert_eq!(query.select(0, Some(0), Some(1499))[0].columns, vec![Some(0), Some(-1000)]);
    assert_eq!(query.select(0, Some(700), Some(5000))[0].columns, vec![Some(700), Some(701)]);
}

#[test]
fn index_built_late_and_dropped_again_changes_no_answer() {
    let mut query = grades(2, 0);
    query.insert(1, vec![Some(10)]).unwrap();
    query.insert(2, vec![Some(10)]).unwrap();
    query.update(1, Some(10), Some(11)).unwrap();
    query.insert(3, vec![Some(10)]).unwrap();
    query.delete(0, Some(2)).unwrap();
    let mut table = query.into_table();
    table.create_index(1);
    assert!(table.has_index(1));
    assert!(!table.has_index(0));
    let mut query = Query::new(table);
    assert_eq!(query.select(1, Some(11), None).len(), 1);
    assert_eq!(query.select(1, Some(10), None).len(), 1);
    query.insert(4, vec![Some(11)]).unwrap();
    assert_eq!(query.select(1, Some(11), None).len(), 2);
    let mut table = query.into_table();
    table.drop_index(1);
    assert!(!table.has_index(1));
    let query = Query::new(table);
    assert_eq!(query.select(1, Some(11), None).len(), 2);
    assert_eq!(query.select(1, Some(10), None).len(), 1);
}

#[test]
fn queries_on_a_table_of_seventy_columns() {
    let mut table = Table::new(70, String::from("Wide"), 69);
    table.create_index(66);
    let mut query = Query::new(table);
    let mut values: Vec<Option<i64>> = vec![None; 69];
    values[66] = Some(5);
    assert_eq!(query.insert(1, values.clone()), Ok(0));
    values[66] = Some(6);
    assert_eq!(query.insert(2, values), Ok(1));
    assert_eq!(query.update(66, Some(5), Some(7)), Ok(1));
    assert_eq!(query.update(3, None, Some(9)), Ok(2));
    assert_eq!(query.increment(66, Some(7)), Ok(1));
    let rows = query.select(69, Some(1), None);
    assert_eq!(rows.len(), 1);
    assert_eq!(rows[0].columns.len(), 70);
    assert_eq!(rows[0].columns[66], Some(8));
    assert_eq!(rows[0].columns[3], Some(9));
    assert_eq!(rows[0].columns[69], Some(1));
    assert_eq!(rows[0].columns[65], None);
    assert_eq!(query.select(66, Some(6), None)[0].rid, 1);
    assert_eq!(query.select(69, Some(1), Some(1))[0].columns[66], Some(5));
    assert_eq!(query.sum(1, 2, 66), 14);
    assert_eq!(query.insert(3, vec![None; 70]), Err(QueryError::InvalidArity));
}

#[test]
fn a_past_select_is_unchanged_by_later_writes() {
    let mut query = indexed_grades(3, 0);
    query.insert(1, vec![Some(10), Some(100)]).unwrap();
    query.insert(2, vec![Some(2000), Some(20000)]).unwrap();
    query.update(1, Some(10), Some(11)).unwrap();
    let taken: Vec<Vec<Option<i64>>> =
        query.select(0, Some(1), Some(2)).into_iter().map(|row| row.columns).collect();
    assert_eq!(taken, vec![vec![Some(1), Some(11), Some(100)]]);
    let mut round = 0;
    while round < 20 {
        assert_eq!(query.increment(1, Some(11 + round)), Ok(1));
        assert_eq!(query.update(2, Some(100 + round), Some(101 + round)), Ok(1));
        round += 1;
    }
    query.insert(3, vec![Some(30), None]).unwrap();
    let again: Vec<Vec<Option<i64>>> =
        query.select(0, Some(1), Some(2)).into_iter().map(|row| row.columns).collect();
    assert_eq!(again, taken);
    assert_eq!(query.select(0, Some(1), Some(0))[0].columns, vec![Some(1), Some(10), Some(100)]);
    assert_eq!(query.select(0, Some(1), None)[0].columns, vec![Some(1), Some(31), Some(120)]);
}
