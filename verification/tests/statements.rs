use venom_db::engine::executor::{Executor, Storage};
use venom_db::engine::rows::Row;
use venom_db::engine::txn_executor::TxnExecutor;
use venom_db::sql::ast::{Statement, Value};
use venom_db::sql::lexer::{Lexer, Token};
use venom_db::sql::number::Real;
use venom_db::sql::parser::Parser;
use venom_db::storage::page::Page;

fn parse(sql: &str) -> Result<Statement, String> {
    let tokens = Lexer::new(sql).tokenize()?;
    let tokens = tokens
        .into_iter()
        .map(|t| match t {
            Token::FloatText(s) => {
                Token::FloatLit(Real::from_bits(s.parse::<f64>().unwrap().to_bits()))
            }
            t => t,
        })
        .collect();
    Parser::new(tokens).parse()
}

fn fresh() -> Executor {
    let none = Storage { pages: vec![], log: vec![], catalog: None, metas: vec![] };
    let mut e = Executor::open("data", none);
    e.recover().unwrap();
    e
}

fn try_run(e: &mut Executor, sql: &str) -> Result<Vec<Row>, String> {
    assert!(e.has_room());
    e.execute(parse(sql).unwrap())
}

fn run(e: &mut Executor, sql: &str) -> Vec<Row> {
    try_run(e, sql).unwrap()
}

fn fails(e: &mut Executor, sql: &str) -> String {
    try_run(e, sql).unwrap_err()
}

fn restart(e: &Executor) -> Executor {
    let files = Storage {
        pages: e.file_pages().clone(),
        log: e.log_bytes()[..e.synced_len()].to_vec(),
        catalog: e.catalog_bytes().map(|b| b.to_vec()),
        metas: e.meta_files().clone(),
    };
    let mut e = Executor::open("data", files);
    e.recover().unwrap();
    e
}

fn ints(rows: &[Row], column: usize) -> Vec<i64> {
    rows.iter()
        .map(|r| match r[column] {
            Value::Int(n) => n,
            _ => panic!("not an integer"),
        })
        .collect()
}

#[test]
fn unknown_names_are_refused() {
    let mut e = fresh();
    assert_eq!(fails(&mut e, "INSERT INTO t VALUES (1)"), "table 't' not found");
    assert_eq!(fails(&mut e, "SELECT * FROM t"), "table 't' not found");
    assert_eq!(fails(&mut e, "DELETE FROM t"), "table 't' not found");
    assert_eq!(fails(&mut e, "UPDATE t SET a = 1"), "table 't' not found");
    run(&mut e, "CREATE TABLE t (a INT, b TEXT)");
    assert_eq!(fails(&mut e, "CREATE TABLE t (a INT)"), "table 't' already exists");
    run(&mut e, "INSERT INTO t VALUES (1, 'x')");
    assert_eq!(fails(&mut e, "SELECT c FROM t"), "column 'c' not found");
    assert_eq!(fails(&mut e, "SELECT * FROM t WHERE c = 1"), "column 'c' not found");
    assert_eq!(fails(&mut e, "UPDATE t SET c = 1"), "column 'c' not found");
    assert_eq!(fails(&mut e, "SELECT * FROM t ORDER BY c"), "ORDER BY column 'c' not found");
    assert_eq!(
        fails(&mut e, "SELECT a FROM t ORDER BY b"),
        "ORDER BY column 'b' not in SELECT list"
    );
}

#[test]
fn values_of_the_wrong_type_are_refused() {
    let mut e = fresh();
    run(&mut e, "CREATE TABLE t (a INT, b TEXT, c FLOAT)");
    assert_eq!(fails(&mut e, "INSERT INTO t VALUES (1)"), "expected 3 values, got 1");
    assert_eq!(
        fails(&mut e, "INSERT INTO t VALUES ('x', 'y', 1.5)"),
        "type mismatch for column 'a': expected Int, got Text(\"x\")"
    );
    assert_eq!(
        fails(&mut e, "INSERT INTO t VALUES (1, 2, 1.5)"),
        "type mismatch for column 'b': expected Text, got Int(2)"
    );
    run(&mut e, "INSERT INTO t VALUES (1, 'it', 1.5)");
    assert_eq!(
        fails(&mut e, "SELECT * FROM t WHERE b > 1"),
        "type mismatch in WHERE: Text(\"it\") Gt Int(1)"
    );
    assert_eq!(
        fails(&mut e, "UPDATE t SET a = 'x'"),
        "type mismatch: cannot assign Text(\"x\") to column 'a'"
    );
    assert_eq!(
        fails(&mut e, "UPDATE t SET c = 2"),
        "type mismatch: cannot assign Int(2) to column 'c'"
    );
    run(&mut e, "UPDATE t SET c = 2.5");
    let half = Value::Float(Real::from_bits(2.5f64.to_bits()));
    assert_eq!(run(&mut e, "SELECT a, c FROM t"), [[Value::Int(1), half]]);
}

#[test]
fn keys_are_neither_null_nor_repeated() {
    let mut e = fresh();
    run(&mut e, "CREATE TABLE t (id INT PRIMARY KEY, v INT)");
    run(&mut e, "INSERT INTO t VALUES (1, 10)");
    run(&mut e, "INSERT INTO t VALUES (2, 20)");
    assert_eq!(
        fails(&mut e, "INSERT INTO t VALUES (NULL, 0)"),
        "PRIMARY KEY column 'id' cannot be NULL"
    );
    assert_eq!(fails(&mut e, "INSERT INTO t VALUES (2, 0)"), "duplicate primary key: id = 2");
    assert_eq!(
        fails(&mut e, "UPDATE t SET id = NULL WHERE v = 10"),
        "PRIMARY KEY column 'id' cannot be NULL"
    );
    assert_eq!(fails(&mut e, "UPDATE t SET id = 1 WHERE v = 20"), "duplicate primary key: id = 1");
    run(&mut e, "UPDATE t SET id = 2 WHERE id = 2");
    assert_eq!(ints(&run(&mut e, "SELECT * FROM t"), 0), [1, 2]);
    run(&mut e, "DELETE FROM t WHERE id = 2");
    run(&mut e, "INSERT INTO t VALUES (2, 21)");
    assert_eq!(ints(&run(&mut e, "SELECT v FROM t WHERE id = 2"), 0), [21]);
}

#[test]
fn texts_and_floats_are_keys_too() {
    let mut e = fresh();
    run(&mut e, "CREATE TABLE t (name TEXT PRIMARY KEY, v INT)");
    run(&mut e, "INSERT INTO t VALUES ('ann', 1)");
    run(&mut e, "INSERT INTO t VALUES ('bob', 2)");
    assert_eq!(fails(&mut e, "INSERT INTO t VALUES ('ann', 3)"), "duplicate primary key: name = ann");
    assert_eq!(
        fails(&mut e, "INSERT INTO t VALUES (NULL, 3)"),
        "PRIMARY KEY column 'name' cannot be NULL"
    );
    assert_eq!(
        fails(&mut e, "UPDATE t SET name = 'bob' WHERE v = 1"),
        "duplicate primary key: name = bob"
    );
    assert_eq!(fails(&mut e, "UPDATE t SET name = 'eve'"), "duplicate primary key: name = eve");
    run(&mut e, "UPDATE t SET name = 'bob' WHERE v = 2");
    run(&mut e, "UPDATE t SET name = 'eve' WHERE v = 2");
    run(&mut e, "INSERT INTO t VALUES ('bob', 3)");
    assert_eq!(ints(&run(&mut e, "SELECT v FROM t"), 0), [1, 2, 3]);
    assert_eq!(ints(&run(&mut e, "SELECT v FROM t WHERE name = 'bob'"), 0), [3]);

    run(&mut e, "CREATE TABLE f (x FLOAT PRIMARY KEY, v INT)");
    run(&mut e, "INSERT INTO f VALUES (5.0, 1)");
    run(&mut e, "INSERT INTO f VALUES (0.0, 2)");
    assert!(fails(&mut e, "INSERT INTO f VALUES (5.0, 3)").starts_with("duplicate primary key: x = "));
    assert!(fails(&mut e, "INSERT INTO f VALUES (-0.0, 3)").starts_with("duplicate primary key: x = "));
    assert!(fails(&mut e, "UPDATE f SET x = 5.0 WHERE v = 2").starts_with("duplicate primary key"));
    run(&mut e, "UPDATE f SET x = 2.5 WHERE v = 2");
    run(&mut e, "INSERT INTO f VALUES (0.0, 3)");
    assert_eq!(ints(&run(&mut e, "SELECT v FROM f WHERE x = 5"), 0), [1]);
    assert_eq!(ints(&run(&mut e, "SELECT v FROM f WHERE x > 1"), 0), [1, 2]);
    let mut e = restart(&e);
    assert_eq!(fails(&mut e, "INSERT INTO t VALUES ('eve', 9)"), "duplicate primary key: name = eve");
}

#[test]
fn an_update_gives_one_key_to_one_row() {
    let mut e = fresh();
    run(&mut e, "CREATE TABLE t (id INT PRIMARY KEY, v INT)");
    for n in 0..3 {
        run(&mut e, &format!("INSERT INTO t VALUES ({}, {})", n, 10 * n));
    }
    assert_eq!(fails(&mut e, "UPDATE t SET id = 7"), "duplicate primary key: id = 7");
    assert_eq!(ints(&run(&mut e, "SELECT * FROM t"), 0), [0, 1, 2]);
    assert!(run(&mut e, "SELECT * FROM t WHERE id = 7").is_empty());
    run(&mut e, "UPDATE t SET id = 7 WHERE v = 10");
    assert_eq!(ints(&run(&mut e, "SELECT v FROM t WHERE id = 7"), 0), [10]);
    run(&mut e, "UPDATE t SET v = 1");
    assert_eq!(ints(&run(&mut e, "SELECT * FROM t"), 1), [1, 1, 1]);
}

#[test]
fn a_statement_that_fails_at_some_row_changes_none() {
    let mut e = fresh();
    run(&mut e, "CREATE TABLE t (id INT PRIMARY KEY, name TEXT)");
    run(&mut e, "INSERT INTO t VALUES (1, 'long enough')");
    run(&mut e, "INSERT INTO t VALUES (2, 'b')");
    run(&mut e, "INSERT INTO t VALUES (3, 'also long')");
    let before = run(&mut e, "SELECT * FROM t");
    let records = e.log_bytes().len();
    assert!(fails(&mut e, "UPDATE t SET name = 'middle'").starts_with("UPDATE failed"));
    assert_eq!(run(&mut e, "SELECT * FROM t"), before);
    assert_eq!(fails(&mut e, "UPDATE t SET id = 9"), "duplicate primary key: id = 9");
    assert_eq!(run(&mut e, "SELECT * FROM t"), before);
    assert_eq!(ints(&run(&mut e, "SELECT id FROM t WHERE id = 1"), 0), [1]);
    // A begin and an abort for each.
    assert_eq!(e.log_bytes().len() - records, 2 * (17 + 17));
    assert_eq!(e.synced_len(), e.log_bytes().len());
    let mut e = restart(&e);
    assert_eq!(run(&mut e, "SELECT * FROM t"), before);
    run(&mut e, "DELETE FROM t WHERE id = 2");
    run(&mut e, "UPDATE t SET name = 'middle'");
    assert_eq!(ints(&run(&mut e, "SELECT * FROM t"), 0), [1, 3]);
}

#[test]
fn an_inserted_row_is_selected_and_other_tables_stay() {
    let mut e = fresh();
    run(&mut e, "CREATE TABLE t (a INT)");
    run(&mut e, "CREATE TABLE u (a INT)");
    run(&mut e, "INSERT INTO u VALUES (7)");
    for n in 0..3 {
        run(&mut e, &format!("INSERT INTO t VALUES ({})", n));
    }
    assert_eq!(ints(&run(&mut e, "SELECT * FROM t"), 0), [0, 1, 2]);
    assert_eq!(ints(&run(&mut e, "SELECT * FROM u"), 0), [7]);
}

#[test]
fn deleted_rows_are_gone_and_the_others_keep_their_order() {
    let mut e = fresh();
    run(&mut e, "CREATE TABLE t (a INT)");
    for n in 0..10 {
        run(&mut e, &format!("INSERT INTO t VALUES ({})", n));
    }
    run(&mut e, "DELETE FROM t WHERE a >= 7");
    run(&mut e, "DELETE FROM t WHERE a = 3");
    assert_eq!(ints(&run(&mut e, "SELECT * FROM t"), 0), [0, 1, 2, 4, 5, 6]);
    run(&mut e, "DELETE FROM t");
    assert!(run(&mut e, "SELECT * FROM t").is_empty());
}

#[test]
fn updated_rows_stay_in_place() {
    let mut e = fresh();
    run(&mut e, "CREATE TABLE t (a INT, b TEXT)");
    run(&mut e, "INSERT INTO t VALUES (1, 'one')");
    run(&mut e, "INSERT INTO t VALUES (2, 'two')");
    run(&mut e, "UPDATE t SET a = 5, b = 'x' WHERE a = 1");
    assert_eq!(
        run(&mut e, "SELECT * FROM t"),
        [
            [Value::Int(5), Value::Text("x".into())],
            [Value::Int(2), Value::Text("two".into())],
        ]
    );
}

#[test]
fn an_update_that_needs_more_room_fails() {
    let mut e = fresh();
    run(&mut e, "CREATE TABLE t (a TEXT)");
    run(&mut e, "INSERT INTO t VALUES ('ab')");
    assert_eq!(
        fails(&mut e, "UPDATE t SET a = 'abc'"),
        "UPDATE failed: new value for row is larger than original (in-place update only supported \
         for same-size or smaller values)"
    );
    assert_eq!(run(&mut e, "SELECT * FROM t"), [[Value::Text("ab".into())]]);
}

#[test]
fn a_row_that_is_larger_than_a_page_is_refused() {
    let mut e = fresh();
    run(&mut e, "CREATE TABLE t (a TEXT)");
    let sql = format!("INSERT INTO t VALUES ('{}')", "x".repeat(4096));
    assert_eq!(fails(&mut e, &sql), "wal insert new page: page full");
    assert!(run(&mut e, "SELECT * FROM t").is_empty());
}

#[test]
fn rows_that_compare_equal_keep_their_order() {
    let mut e = fresh();
    run(&mut e, "CREATE TABLE t (a INT, b INT)");
    for (a, b) in [(2, 0), (1, 1), (2, 2), (1, 3), (2, 4)] {
        run(&mut e, &format!("INSERT INTO t VALUES ({}, {})", a, b));
    }
    run(&mut e, "INSERT INTO t VALUES (NULL, 5)");
    assert_eq!(ints(&run(&mut e, "SELECT * FROM t ORDER BY a"), 1), [1, 3, 0, 2, 4, 5]);
    assert_eq!(ints(&run(&mut e, "SELECT * FROM t ORDER BY a DESC"), 1), [5, 0, 2, 4, 1, 3]);
    assert_eq!(ints(&run(&mut e, "SELECT b FROM t ORDER BY b DESC LIMIT 2"), 0), [5, 4]);
    assert!(run(&mut e, "SELECT * FROM t LIMIT 0").is_empty());
}

#[test]
fn an_index_finds_what_a_scan_finds() {
    let mut e = fresh();
    run(&mut e, "CREATE TABLE k (id INT PRIMARY KEY)");
    run(&mut e, "CREATE TABLE s (id INT)");
    for n in [5, -3, 9, 0, 7, 2] {
        run(&mut e, &format!("INSERT INTO k VALUES ({})", n));
        run(&mut e, &format!("INSERT INTO s VALUES ({})", n));
    }
    for op in ["=", "!=", "<", ">", "<=", ">="] {
        for n in [-4, -3, 2, 9, 10] {
            let mut a = ints(&run(&mut e, &format!("SELECT * FROM k WHERE id {} {}", op, n)), 0);
            let mut b = ints(&run(&mut e, &format!("SELECT * FROM s WHERE id {} {}", op, n)), 0);
            a.sort();
            b.sort();
            assert_eq!(a, b, "{} {}", op, n);
        }
    }
}

#[test]
fn committed_statements_survive_restarts() {
    let mut e = fresh();
    run(&mut e, "CREATE TABLE t (id INT PRIMARY KEY, name TEXT)");
    for n in 0..300 {
        run(&mut e, &format!("INSERT INTO t VALUES ({}, 'name {}')", n, n));
    }
    run(&mut e, "DELETE FROM t WHERE id < 10");
    run(&mut e, "UPDATE t SET name = 'x' WHERE id = 20");
    let all = run(&mut e, "SELECT * FROM t");
    let mut e = restart(&e);
    assert_eq!(run(&mut e, "SELECT * FROM t"), all);
    assert_eq!(fails(&mut e, "INSERT INTO t VALUES (20, 'y')"), "duplicate primary key: id = 20");
    run(&mut e, "INSERT INTO t VALUES (5, 'again')");
    let all = run(&mut e, "SELECT * FROM t WHERE id <= 20");
    let mut e = restart(&restart(&e));
    assert_eq!(run(&mut e, "SELECT * FROM t WHERE id <= 20"), all);
}

#[test]
fn statements_that_fail_without_a_change_leave_nothing_behind() {
    let mut e = fresh();
    run(&mut e, "CREATE TABLE t (id INT PRIMARY KEY, name TEXT)");
    run(&mut e, "INSERT INTO t VALUES (1, 'a')");
    run(&mut e, "INSERT INTO t VALUES (2, 'b')");
    fails(&mut e, "UPDATE t SET id = NULL WHERE id = 1");
    fails(&mut e, "UPDATE t SET name = 'longer than before'");
    fails(&mut e, "DELETE FROM t WHERE name > 3");
    fails(&mut e, "INSERT INTO t VALUES (2, 'c')");
    fails(&mut e, "CREATE TABLE t (x INT)");
    let mut e = restart(&e);
    let rows = run(&mut e, "SELECT * FROM t");
    assert_eq!(ints(&rows, 0), [1, 2]);
    assert_eq!(rows[1][1], Value::Text("b".to_string()));
    run(&mut e, "INSERT INTO t VALUES (3, 'c')");
    run(&mut e, "UPDATE t SET name = 'z' WHERE id = 2");
    let mut e = restart(&restart(&e));
    let rows = run(&mut e, "SELECT * FROM t");
    assert_eq!(ints(&rows, 0), [1, 2, 3]);
    assert_eq!(rows[1][1], Value::Text("z".to_string()));
}

#[test]
fn the_log_makes_up_for_pages_that_were_not_written() {
    let mut e = fresh();
    run(&mut e, "CREATE TABLE t (id INT PRIMARY KEY, name TEXT)");
    run(&mut e, "INSERT INTO t VALUES (1, 'aa')");
    let stale = e.file_pages().clone();
    run(&mut e, "INSERT INTO t VALUES (2, 'bb')");
    run(&mut e, "UPDATE t SET name = 'cc' WHERE id = 1");
    run(&mut e, "INSERT INTO t VALUES (3, 'dd')");
    run(&mut e, "DELETE FROM t WHERE id = 2");
    let files = Storage {
        pages: stale,
        log: e.log_bytes()[..e.synced_len()].to_vec(),
        catalog: e.catalog_bytes().map(|b| b.to_vec()),
        metas: e.meta_files().clone(),
    };
    let mut e = Executor::open("data", files);
    e.recover().unwrap();
    let rows = run(&mut e, "SELECT * FROM t");
    assert_eq!(ints(&rows, 0), [1, 3]);
    assert_eq!(rows[0][1], Value::Text("cc".to_string()));
    assert_eq!(ints(&run(&mut e, "SELECT id FROM t WHERE id = 3"), 0), [3]);
}

#[test]
fn a_record_that_was_cut_short_does_not_hide_later_ones() {
    let mut e = fresh();
    run(&mut e, "CREATE TABLE t (id INT PRIMARY KEY)");
    run(&mut e, "INSERT INTO t VALUES (1)");
    let open = |e: &Executor, log: Vec<u8>| {
        let mut again = Executor::open(
            "data",
            Storage {
                pages: e.file_pages().clone(),
                log,
                catalog: e.catalog_bytes().map(|b| b.to_vec()),
                metas: e.meta_files().clone(),
            },
        );
        again.recover().unwrap();
        again
    };
    let mut log = e.log_bytes().to_vec();
    log.extend_from_slice(&[30, 0, 0, 0, 1, 2, 3]);
    let mut e = open(&e, log);
    run(&mut e, "INSERT INTO t VALUES (2)");
    let log = e.log_bytes().to_vec();
    let mut e = open(&e, log);
    assert_eq!(ints(&run(&mut e, "SELECT * FROM t"), 0), [1, 2]);
}

/// The rows of `t` that are left if the log ends at each of its bytes that `sql` writes.
fn crash_within(e: &mut Executor, sql: &str, step: usize) {
    let before = run(e, "SELECT * FROM t");
    let old_pages = e.file_pages().clone();
    let from = e.log_bytes().len();
    let _ = try_run(e, sql);
    let log = e.log_bytes().to_vec();
    let mut pages = old_pages.clone();
    for id in old_pages.len()..e.file_pages().len() {
        let mut page = Page::new(id as u32);
        page.finalize_checksum();
        pages.push(page.data);
    }
    for m in (from..log.len()).step_by(step) {
        let files = Storage {
            pages: pages.clone(),
            log: log[..m].to_vec(),
            catalog: e.catalog_bytes().map(|b| b.to_vec()),
            metas: e.meta_files().clone(),
        };
        let mut again = Executor::open("data", files);
        again.recover().unwrap();
        assert!(run(&mut again, "SELECT * FROM t") == before);
        run(&mut again, "INSERT INTO t VALUES (90, 'later')");
        let mut again = restart(&again);
        assert_eq!(ints(&run(&mut again, "SELECT id FROM t WHERE id = 90"), 0), [90]);
        assert_eq!(run(&mut again, "SELECT * FROM t").len(), before.len() + 1);
    }
}

#[test]
fn a_crash_within_a_statement_leaves_nothing_of_it() {
    let mut e = fresh();
    run(&mut e, "CREATE TABLE t (id INT PRIMARY KEY, name TEXT)");
    crash_within(&mut e, "INSERT INTO t VALUES (1, 'aa')", 1);
    crash_within(&mut e, "INSERT INTO t VALUES (2, 'bb')", 1);
    crash_within(&mut e, "UPDATE t SET name = 'cc'", 1);
    crash_within(&mut e, "UPDATE t SET id = 7", 1);
    crash_within(&mut e, "DELETE FROM t WHERE id = 1", 1);
    let long = "x".repeat(3000);
    crash_within(&mut e, &format!("INSERT INTO t VALUES (3, '{long}')"), 97);
    crash_within(&mut e, &format!("INSERT INTO t VALUES (4, '{long}')"), 97);
    assert_eq!(ints(&run(&mut e, "SELECT id FROM t ORDER BY id"), 0), [2, 3, 4]);
}

#[test]
fn recovery_says_what_it_did() {
    let mut e = fresh();
    run(&mut e, "CREATE TABLE t (a INT)");
    run(&mut e, "INSERT INTO t VALUES (1)");
    run(&mut e, "INSERT INTO t VALUES (2)");
    let files = Storage {
        pages: e.file_pages().clone(),
        log: e.log_bytes().to_vec(),
        catalog: e.catalog_bytes().map(|b| b.to_vec()),
        metas: e.meta_files().clone(),
    };
    let mut again = Executor::open("data", files);
    let info = again.recover().unwrap();
    assert_eq!((info.redone, info.undone, info.tables_loaded), (2, 0, 1));
    assert_eq!(again.table_meta_path("t"), "data/t.pages");
    assert_eq!(again.catalog_path(), "data/catalog.bin");
}

#[test]
fn a_damaged_page_is_reported() {
    let mut e = fresh();
    run(&mut e, "CREATE TABLE t (a INT)");
    run(&mut e, "INSERT INTO t VALUES (1)");
    let mut pages = e.file_pages().clone();
    pages[0][100] ^= 1;
    let mut again = Executor::open(
        "data",
        Storage {
            pages,
            log: e.log_bytes().to_vec(),
            catalog: e.catalog_bytes().map(|b| b.to_vec()),
            metas: e.meta_files().clone(),
        },
    );
    again.recover().unwrap();
    assert_eq!(fails(&mut again, "SELECT * FROM t"), "fetch page 0: Checksum mismatch on page 0");
}

#[test]
fn a_damaged_catalog_is_reported() {
    let mut e = Executor::open(
        "data",
        Storage { pages: vec![], log: vec![], catalog: Some(vec![1, 2]), metas: vec![] },
    );
    assert_eq!(e.recover().unwrap_err(), "catalog truncated");
}

#[test]
fn a_refused_table_leaves_an_empty_index_on_its_key() {
    let mut e = fresh();
    run(&mut e, "CREATE TABLE t (a INT, b INT)");
    run(&mut e, "INSERT INTO t VALUES (1, 2)");
    assert_eq!(
        fails(&mut e, "CREATE TABLE t (a INT PRIMARY KEY)"),
        "table 't' already exists"
    );
    assert!(e.index_manager.has_index("t", "a"));
    assert!(!e.index_manager.has_index("t", "b"));
    assert_eq!(e.index_manager.search("t", "a", 1), None);
    assert_eq!(ints(&run(&mut e, "SELECT * FROM t"), 1), [2]);
    // Lookups go through the index until a restart, which rebuilds those that the catalog has.
    assert!(run(&mut e, "SELECT * FROM t WHERE a = 1").is_empty());
    let mut e = restart(&e);
    assert!(!e.index_manager.has_index("t", "a"));
    assert_eq!(ints(&run(&mut e, "SELECT * FROM t WHERE a = 1"), 0), [1]);
}

#[test]
fn a_refused_table_leaves_the_index_that_is_there() {
    let mut e = fresh();
    run(&mut e, "CREATE TABLE t (a INT PRIMARY KEY)");
    run(&mut e, "INSERT INTO t VALUES (1)");
    fails(&mut e, "CREATE TABLE t (a INT PRIMARY KEY, b INT)");
    assert_eq!(ints(&run(&mut e, "SELECT * FROM t WHERE a = 1"), 0), [1]);
}

#[test]
fn a_key_can_be_set_to_itself() {
    let mut e = fresh();
    run(&mut e, "CREATE TABLE t (id INT PRIMARY KEY, v INT)");
    run(&mut e, "INSERT INTO t VALUES (1, 10)");
    run(&mut e, "INSERT INTO t VALUES (2, 20)");
    assert!(run(&mut e, "UPDATE t SET id = 2 WHERE id = 2").is_empty());
    assert_eq!(ints(&run(&mut e, "SELECT * FROM t"), 0), [1, 2]);
    assert_eq!(ints(&run(&mut e, "SELECT * FROM t WHERE id = 2"), 1), [20]);
    run(&mut e, "CREATE TABLE n (name TEXT PRIMARY KEY)");
    run(&mut e, "INSERT INTO n VALUES ('x')");
    assert!(run(&mut e, "UPDATE n SET name = 'x' WHERE name = 'x'").is_empty());
}

#[test]
fn the_largest_row_that_fits_a_page_is_inserted() {
    let mut e = fresh();
    run(&mut e, "CREATE TABLE t (name TEXT)");
    let most = "x".repeat(4079 - 5);
    run(&mut e, &format!("INSERT INTO t VALUES ('{most}')"));
    fails(&mut e, &format!("INSERT INTO t VALUES ('{most}x')"));
    assert_eq!(run(&mut e, "SELECT * FROM t").len(), 1);
}

#[test]
fn transactions_are_begun_once_and_ended_once() {
    let mut t = TxnExecutor::new(fresh());
    let a = t.begin();
    let b = t.begin();
    assert_eq!((a, b), (1, 2));
    assert!(t.run_in_txn(a, parse("CREATE TABLE t (x INT)").unwrap()).unwrap().is_empty());
    t.run_in_txn(a, parse("INSERT INTO t VALUES (1)").unwrap()).unwrap();
    assert_eq!(t.commit(a), Ok(()));
    assert_eq!(t.commit(a), Err("txn not found".to_string()));
    assert_eq!(
        t.run_in_txn(a, parse("SELECT * FROM t").unwrap()),
        Err("txn 1 not active".to_string())
    );
    assert_eq!(t.run_in_txn(b, parse("SELECT * FROM t").unwrap()).unwrap(), [[Value::Int(1)]]);
    t.run_in_txn(b, parse("INSERT INTO t VALUES (2)").unwrap()).unwrap();
    assert_eq!(t.abort(b), Ok(()));
    assert_eq!(t.abort(b), Err("txn not found".to_string()));
    // Each statement was committed when it ran.
    let c = t.begin();
    let rows = t.run_in_txn(c, parse("SELECT * FROM t").unwrap()).unwrap();
    assert_eq!(ints(&rows, 0), [1, 2]);
}
