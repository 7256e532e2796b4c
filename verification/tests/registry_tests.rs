use lstore::db::DB;
use lstore::query::Query;
use lstore::table::Table;

#[test]
fn registry_starts_empty() {
    let db = DB::new();
    assert!(db.get_table(String::from("Grades")).is_none());
}

#[test]
fn created_tables_are_found_by_name() {
    let mut db = DB::new();
    db.create_table(String::from("Grades"), 5, 0);
    db.create_table(String::from("Courses"), 3, 1);
    let grades = db.get_table(String::from("Grades")).unwrap();
    assert_eq!(grades.table_name(), "Grades");
    assert_eq!(grades.column_count(), 5);
    assert_eq!(grades.key_column(), 0);
    assert_eq!(grades.num_records(), 0);
    let courses = db.get_table(String::from("Courses")).unwrap();
    assert_eq!(courses.column_count(), 3);
    assert_eq!(courses.key_column(), 1);
    assert!(db.get_table(String::from("grades")).is_none());
}

#[test]
fn dropped_tables_are_gone() {
    let mut db = DB::new();
    db.create_table(String::from("Grades"), 5, 0);
    db.create_table(String::from("Courses"), 3, 1);
    db.drop_table(String::from("Grades"));
    assert!(db.get_table(String::from("Grades")).is_none());
    assert!(db.get_table(String::from("Courses")).is_some());
    db.drop_table(String::from("Grades"));
    db.drop_table(String::from("Nothing"));
    assert!(db.get_table(String::from("Courses")).is_some());
}

#[test]
fn a_table_goes_out_and_comes_back_with_its_records() {
    let mut db = DB::new();
    db.create_table(String::from("Grades"), 2, 0);
    let table = db.take_table(String::from("Grades")).unwrap();
    assert!(db.get_table(String::from("Grades")).is_none());
    assert!(db.take_table(String::from("Grades")).is_none());
    let mut query = Query::new(table);
    query.insert(1, vec![Some(10)]).unwrap();
    db.put_table(query.into_table());
    assert_eq!(db.get_table(String::from("Grades")).unwrap().num_records(), 1);
}

#[test]
fn a_name_stands_for_one_table() {
    let mut db = DB::new();
    db.create_table(String::from("Grades"), 2, 0);
    let mut query = Query::new(db.take_table(String::from("Grades")).unwrap());
    query.insert(1, vec![Some(10)]).unwrap();
    db.put_table(query.into_table());
    db.create_table(String::from("Grades"), 4, 1);
    let table = db.get_table(String::from("Grades")).unwrap();
    assert_eq!(table.column_count(), 4);
    assert_eq!(table.num_records(), 0);
    db.put_table(Table::new(3, String::from("Grades"), 2));
    assert_eq!(db.get_table(String::from("Grades")).unwrap().column_count(), 3);
    db.drop_table(String::from("Grades"));
    assert!(db.get_table(String::from("Grades")).is_none());
}

#[test]
fn a_wide_table_is_created_and_found() {
    let mut db = DB::new();
    db.create_table(String::from("Wide"), 65, 64);
    db.create_table(String::from("Wider"), 1000, 0);
    let wide = db.get_table(String::from("Wide")).unwrap();
    assert_eq!(wide.column_count(), 65);
    assert_eq!(wide.key_column(), 64);
    assert_eq!(wide.num_records(), 0);
    assert_eq!(db.get_table(String::from("Wider")).unwrap().column_count(), 1000);
}
