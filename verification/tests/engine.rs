//! End-to-end behaviour of the table: ordered inserts, splits, scans,
//! persistence, and the statement layer.

use sqlite_rs::error::{DbError, ExecErr, MetaCmdErr, PrepareErr};
use sqlite_rs::row::Row;
use sqlite_rs::table::Table;
use sqlite_rs::cursor::Cursor;
use sqlite_rs::{
    do_meta_command, execute_select, prepare_statement, run_cmd, MetaCmd, Reply, Statement,
};

fn fresh_table() -> Table {
    Table::open_db(&Vec::new()).unwrap()
}

fn mk_row(key: u32) -> Row {
    let name = format!("user{key}");
    let mail = format!("person{key}@example.com");
    Row::build(key, name.as_bytes(), mail.as_bytes()).unwrap()
}

fn scan_keys(table: &Table) -> Vec<u32> {
    execute_select(table).unwrap().iter().map(|r| r.key()).collect()
}

#[test]
fn insert_and_retrieve_one_row() {
    let mut t = fresh_table();
    let row = Row::build(0, b"foo", b"foo@bar.com").unwrap();
    t.insert_row(0, &row).unwrap();
    let rows = execute_select(&t).unwrap();
    assert_eq!(rows.len(), 1);
    assert_eq!(rows[0].key(), 0);
    assert_eq!(rows[0].username()[..3], b"foo"[..]);
    assert_eq!(rows[0].email()[..11], b"foo@bar.com"[..]);
}

#[test]
fn single_leaf_tree_is_printed_in_key_order() {
    let mut t = fresh_table();
    for key in [3u32, 1, 2] {
        t.insert_row(key, &mk_row(key)).unwrap();
    }
    assert_eq!(t.btree_to_str(), "leaf (size 3)\n  - 1\n  - 2\n  - 3\n");
}

#[test]
fn duplicate_key_is_rejected() {
    let mut t = fresh_table();
    t.insert_row(1, &mk_row(1)).unwrap();
    let err = t.insert_row(1, &mk_row(1)).unwrap_err();
    assert!(matches!(err, ExecErr::DuplicateKey(_)));
    assert_eq!(scan_keys(&t), vec![1]);
}

#[test]
fn full_root_leaf_stays_single_until_capacity() {
    let mut t = fresh_table();
    for key in 0u32..13 {
        t.insert_row(key, &mk_row(key)).unwrap();
    }
    let printed = t.btree_to_str();
    assert!(printed.starts_with("leaf (size 13)\n"));
}

#[test]
fn capacity_boundary_splits_into_two_leaves() {
    let mut t = fresh_table();
    for key in 0u32..14 {
        t.insert_row(key, &mk_row(key)).unwrap();
    }
    let mut expected = String::from("internal (size 2)\n  leaf (size 7)\n");
    for key in 0..7 {
        expected.push_str(&format!("    - {key}\n"));
    }
    expected.push_str("  leaf (size 7)\n");
    for key in 7..14 {
        expected.push_str(&format!("    - {key}\n"));
    }
    assert_eq!(t.btree_to_str(), expected);
}

#[test]
fn three_leaf_tree_after_twentyone_inserts() {
    let mut t = fresh_table();
    for key in 0u32..21 {
        t.insert_row(key, &mk_row(key)).unwrap();
    }
    let mut expected = String::from("internal (size 3)\n");
    for low in [0u32, 7, 14] {
        expected.push_str("  leaf (size 7)\n");
        for key in low..low + 7 {
            expected.push_str(&format!("    - {key}\n"));
        }
    }
    assert_eq!(t.btree_to_str(), expected);
}

#[test]
fn scan_returns_distinct_successful_keys_in_ascending_order() {
    let mut t = fresh_table();
    let tries = [5u32, 3, 8, 3, 1, 8, 13, 2, 21, 1, 0, 34, 55, 5, 89, 144, 7, 6, 12, 11];
    let mut succeeded: Vec<u32> = Vec::new();
    for &key in &tries {
        match t.insert_row(key, &mk_row(key)) {
            Ok(()) => succeeded.push(key),
            Err(e) => assert!(matches!(e, ExecErr::DuplicateKey(_))),
        }
    }
    succeeded.sort();
    let scanned = scan_keys(&t);
    assert_eq!(scanned, succeeded);
    // Strictly increasing: no duplicate survives.
    for w in scanned.windows(2) {
        assert!(w[0] < w[1]);
    }
}

#[test]
fn close_then_reopen_preserves_tree_and_scan() {
    let mut t = fresh_table();
    for key in [20u32, 4, 15, 9, 1, 30, 17, 8, 2, 27, 14, 3, 11, 6, 25, 0, 19] {
        t.insert_row(key, &mk_row(key)).unwrap();
    }
    let bytes = t.close_db();
    assert_eq!(bytes.len() % 4096, 0);

    let t2 = Table::open_db(&bytes).unwrap();
    assert_eq!(t2.btree_to_str(), t.btree_to_str());
    assert_eq!(scan_keys(&t2), scan_keys(&t));
    // Writing the reopened table back yields the identical image.
    assert_eq!(t2.close_db(), bytes);
}

#[test]
fn corrupt_file_length_is_refused() {
    let data = vec![0u8; 100];
    assert!(matches!(Table::open_db(&data), Err(ExecErr::IoError(_))));
}

#[test]
fn table_full_is_reported() {
    let mut t = fresh_table();
    let mut full = false;
    for key in 0u32..2000 {
        match t.insert_row(key, &mk_row(key)) {
            Ok(()) => {},
            Err(ExecErr::TableFull(_)) => {
                full = true;
                break;
            },
            Err(_) => panic!("unexpected error kind"),
        }
    }
    assert!(full);
}

#[test]
fn prepare_recognizes_statements() {
    assert!(matches!(prepare_statement("select"), Ok(Statement::Select)));
    match prepare_statement("insert 1 user1 person1@example.com") {
        Ok(Statement::Insert(row)) => assert_eq!(row.key(), 1),
        _ => panic!("insert statement not recognized"),
    }
    assert!(matches!(
        prepare_statement("insert -1 foo foo@bar.com"),
        Err(PrepareErr::NegativeId(_))
    ));
    assert!(matches!(prepare_statement("insert 1 foo"), Err(PrepareErr::SyntaxErr(_))));
    assert!(matches!(prepare_statement("frobnicate"), Err(PrepareErr::Unrecognized(_))));
}

#[test]
fn prepare_checks_id_range_and_string_lengths() {
    assert!(matches!(prepare_statement("insert 4294967295 a b"), Ok(Statement::Insert(_))));
    assert!(matches!(
        prepare_statement("insert 4294967296 a b"),
        Err(PrepareErr::SyntaxErr(_))
    ));
    assert!(matches!(prepare_statement("insert 007 a b"), Ok(Statement::Insert(_))));

    let name32 = "a".repeat(32);
    let mail255 = "b".repeat(255);
    let ok = format!("insert 0 {name32} {mail255}");
    assert!(matches!(prepare_statement(&ok), Ok(Statement::Insert(_))));

    let name33 = "a".repeat(33);
    let too_long = format!("insert 0 {name33} {mail255}");
    assert!(matches!(prepare_statement(&too_long), Err(PrepareErr::StringTooLong(_))));

    let mail256 = "b".repeat(256);
    let too_long2 = format!("insert 0 {name32} {mail256}");
    assert!(matches!(prepare_statement(&too_long2), Err(PrepareErr::StringTooLong(_))));
}

#[test]
fn meta_commands_are_recognized() {
    assert!(matches!(do_meta_command(".exit"), Ok(MetaCmd::Exit)));
    assert!(matches!(do_meta_command(".btree"), Ok(MetaCmd::Btree)));
    assert!(matches!(do_meta_command(".constants"), Ok(MetaCmd::Constants)));
    assert!(matches!(do_meta_command(".frobnicate"), Err(MetaCmdErr::Unrecognized(_))));
}

#[test]
fn run_cmd_drives_the_table() {
    let mut t = fresh_table();
    assert!(matches!(run_cmd("insert 1 user1 person1@example.com", &mut t), Ok(Reply::Executed)));
    match run_cmd("select", &mut t) {
        Ok(Reply::Rows(rows)) => {
            assert_eq!(rows.len(), 1);
            assert_eq!(rows[0].key(), 1);
        },
        _ => panic!("select did not return rows"),
    }
    match run_cmd(".btree", &mut t) {
        Ok(Reply::Tree(s)) => assert_eq!(s, "leaf (size 1)\n  - 1\n"),
        _ => panic!("btree did not return a tree"),
    }
    assert!(matches!(run_cmd(".exit", &mut t), Ok(Reply::Exit)));
    match run_cmd("insert 1 user1 person1@example.com", &mut t) {
        Err(DbError::ExecErr(ExecErr::DuplicateKey(msg))) => {
            assert_eq!(msg, "Error: Duplicate key.");
        },
        _ => panic!("duplicate insert not rejected"),
    }
}

#[test]
fn duplicate_into_full_leaf_reports_duplicate_not_split() {
    let mut t = fresh_table();
    for key in 0u32..13 {
        t.insert_row(key, &mk_row(key)).unwrap();
    }
    // The root leaf is full; a duplicate must still be rejected as such.
    let err = t.insert_row(5, &mk_row(5)).unwrap_err();
    assert!(matches!(err, ExecErr::DuplicateKey(_)));
    assert!(t.btree_to_str().starts_with("leaf (size 13)\n"));
}

#[test]
fn descending_inserts_split_correctly() {
    let mut t = fresh_table();
    for key in (0u32..30).rev() {
        t.insert_row(key, &mk_row(key)).unwrap();
    }
    let expected: Vec<u32> = (0..30).collect();
    assert_eq!(scan_keys(&t), expected);
}

#[test]
fn reopen_then_insert_more() {
    let mut t = fresh_table();
    for key in 0u32..20 {
        t.insert_row(key, &mk_row(key)).unwrap();
    }
    let bytes = t.close_db();

    let mut t2 = Table::open_db(&bytes).unwrap();
    for key in 20u32..40 {
        t2.insert_row(key, &mk_row(key)).unwrap();
    }
    let expected: Vec<u32> = (0..40).collect();
    assert_eq!(scan_keys(&t2), expected);
}

#[test]
fn cursor_walks_all_cells() {
    let mut t = fresh_table();
    for key in [2u32, 9, 4] {
        t.insert_row(key, &mk_row(key)).unwrap();
    }
    let c = Cursor::new(0, 0, false);
    assert_eq!(c.leaf_idx, 0);
    assert_eq!(c.cell_idx, 0);
    assert!(!c.at_end);

    let mut cursor = t.new_cursor_at_start().unwrap();
    let mut seen: Vec<u32> = Vec::new();
    while !cursor.at_end {
        seen.push(t.select_row(&cursor).unwrap().key());
        t.advance_cursor(&mut cursor).unwrap();
    }
    assert_eq!(seen, vec![2, 4, 9]);

    let by_key = t.new_cursor_by_key(4).unwrap();
    assert_eq!(t.select_row(&by_key).unwrap().key(), 4);
}

#[test]
fn insert_keyword_must_be_a_whole_token() {
    assert!(matches!(prepare_statement("insert1 2 a b"), Err(PrepareErr::SyntaxErr(_))));
    assert!(matches!(prepare_statement("inserted 1 a b"), Err(PrepareErr::SyntaxErr(_))));
    assert!(matches!(prepare_statement("insert 1 a b"), Ok(Statement::Insert(_))));
}

#[test]
fn string_too_long_message_matches_driver_wording() {
    let name33 = vec![b'a'; 33];
    match Row::build(0, &name33, b"a@b") {
        Err(PrepareErr::StringTooLong(msg)) => assert_eq!(msg, "String is too long."),
        _ => panic!("over-long name not rejected"),
    }
}
