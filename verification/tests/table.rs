//! The table end to end: inserts, selects, ordering, capacity, persistence.

use leafdb::row::Row;
use leafdb::statement::{
    execute_insert, execute_select, execute_statement, prepare_statement, ExecuteError, Statement,
    StatementResult,
};
use leafdb::table::{db_close, db_open, Table};
use leafdb::{LEAF_NODE_MAX_CELLS, PAGE_SIZE};

fn fresh() -> Table {
    db_open(Vec::new()).unwrap()
}

fn run_insert(table: &mut Table, line: &[u8]) -> Result<(), ExecuteError> {
    match prepare_statement(line).unwrap() {
        Statement::Insert(row) => execute_insert(&row, table),
        Statement::Select => panic!("expected an insert line"),
    }
}

#[test]
fn insert_then_select_returns_the_row() {
    let mut table = fresh();
    run_insert(&mut table, b"insert 1 alice a@x").unwrap();
    let rows = execute_select(&table);
    assert_eq!(rows.len(), 1);
    assert_eq!(rows[0].id, 1);
    assert_eq!(rows[0].username, b"alice".to_vec());
    assert_eq!(rows[0].email, b"a@x".to_vec());
}

#[test]
fn select_returns_rows_in_ascending_id_order() {
    let mut table = fresh();
    run_insert(&mut table, b"insert 2 b b@x").unwrap();
    run_insert(&mut table, b"insert 1 a a@x").unwrap();
    let rows = execute_select(&table);
    assert_eq!(rows.len(), 2);
    assert_eq!(rows[0].id, 1);
    assert_eq!(rows[0].username, b"a".to_vec());
    assert_eq!(rows[1].id, 2);
    assert_eq!(rows[1].username, b"b".to_vec());
}

#[test]
fn out_of_order_inserts_end_up_sorted() {
    let mut table = fresh();
    for id in [7u32, 3, 11, 1, 9, 5] {
        let row = Row::new(id, b"u", b"e@x");
        execute_insert(&row, &mut table).unwrap();
    }
    let rows = execute_select(&table);
    let ids: Vec<u32> = rows.iter().map(|r| r.id).collect();
    assert_eq!(ids, vec![1, 3, 5, 7, 9, 11]);
}

#[test]
fn fourteenth_insert_is_table_full() {
    let mut table = fresh();
    for id in 0..LEAF_NODE_MAX_CELLS as u32 {
        let row = Row::new(id, b"u", b"e@x");
        assert_eq!(execute_insert(&row, &mut table), Ok(()));
    }
    let row = Row::new(999, b"u", b"e@x");
    assert_eq!(execute_insert(&row, &mut table), Err(ExecuteError::TableFull));
    assert_eq!(execute_select(&table).len(), LEAF_NODE_MAX_CELLS);
}

#[test]
fn duplicate_key_is_rejected_and_leaves_the_table_unchanged() {
    let mut table = fresh();
    run_insert(&mut table, b"insert 1 a a@x").unwrap();
    assert_eq!(
        run_insert(&mut table, b"insert 1 b b@x"),
        Err(ExecuteError::DuplicateKey)
    );
    let rows = execute_select(&table);
    assert_eq!(rows.len(), 1);
    assert_eq!(rows[0].username, b"a".to_vec());
    assert_eq!(rows[0].email, b"a@x".to_vec());
}

#[test]
fn repeated_selects_on_an_unchanged_table_are_identical() {
    let mut table = fresh();
    run_insert(&mut table, b"insert 3 c c@x").unwrap();
    run_insert(&mut table, b"insert 1 a a@x").unwrap();
    let first = execute_select(&table);
    let second = execute_select(&table);
    assert_eq!(first.len(), second.len());
    for (a, b) in first.iter().zip(second.iter()) {
        assert_eq!(a.id, b.id);
        assert_eq!(a.username, b.username);
        assert_eq!(a.email, b.email);
    }
}

#[test]
fn close_and_reopen_yields_the_same_rows() {
    let mut table = fresh();
    for id in [4u32, 2, 8] {
        let row = Row::new(id, b"u", b"e@x");
        execute_insert(&row, &mut table).unwrap();
    }
    let image = db_close(&table);
    assert_eq!(image.len() % PAGE_SIZE, 0);
    let reopened = db_open(image).unwrap();
    let ids: Vec<u32> = execute_select(&reopened).iter().map(|r| r.id).collect();
    assert_eq!(ids, vec![2, 4, 8]);
}

#[test]
fn second_session_sees_what_the_first_wrote() {
    // session A
    let mut table = fresh();
    run_insert(&mut table, b"insert 1 a a@x").unwrap();
    let file = db_close(&table);
    // session B on the same file
    let table_b = db_open(file).unwrap();
    let rows = execute_select(&table_b);
    assert_eq!(rows.len(), 1);
    assert_eq!(rows[0].id, 1);
    assert_eq!(rows[0].username, b"a".to_vec());
    assert_eq!(rows[0].email, b"a@x".to_vec());
}

#[test]
fn full_table_survives_close_and_reopen() {
    let mut table = fresh();
    for id in 0..13u32 {
        let row = Row::new(id, b"u", b"e@x");
        execute_insert(&row, &mut table).unwrap();
    }
    let reopened = db_open(db_close(&table)).unwrap();
    assert_eq!(execute_select(&reopened).len(), 13);
    let mut again = reopened;
    let row = Row::new(50, b"u", b"e@x");
    assert_eq!(execute_insert(&row, &mut again), Err(ExecuteError::TableFull));
}

#[test]
fn execute_statement_dispatches() {
    let mut table = fresh();
    let insert = prepare_statement(b"insert 6 f f@x").unwrap();
    assert!(matches!(
        execute_statement(insert, &mut table),
        Ok(StatementResult::Inserted)
    ));
    let select = prepare_statement(b"select").unwrap();
    match execute_statement(select, &mut table) {
        Ok(StatementResult::Selected(rows)) => {
            assert_eq!(rows.len(), 1);
            assert_eq!(rows[0].id, 6);
        },
        _ => panic!("expected selected rows"),
    }
}

#[test]
fn root_keys_lists_the_keys_in_order() {
    let mut table = fresh();
    for id in [5u32, 1, 3] {
        let row = Row::new(id, b"u", b"e@x");
        execute_insert(&row, &mut table).unwrap();
    }
    assert_eq!(table.root_keys(), vec![1, 3, 5]);
}

#[test]
fn empty_table_selects_nothing() {
    let table = fresh();
    assert_eq!(execute_select(&table).len(), 0);
}
