use std::cell::RefCell;
use std::rc::Rc;
use venom_db::engine::executor::{Executor, Storage};
use venom_db::engine::rows::Row;
use venom_db::sql::ast::{Statement, Value};
use venom_db::sql::lexer::{Lexer, Token};
use venom_db::sql::number::Real;
use venom_db::sql::parser::Parser;

type Dir = Rc<RefCell<Storage>>;

/// An executor whose files are kept when it goes away.
struct Db {
    exec: Executor,
    dir: Dir,
}

impl std::ops::Deref for Db {
    type Target = Executor;

    fn deref(&self) -> &Executor {
        &self.exec
    }
}

impl std::ops::DerefMut for Db {
    fn deref_mut(&mut self) -> &mut Executor {
        &mut self.exec
    }
}

fn new_dir() -> Dir {
    Rc::new(RefCell::new(Storage { pages: vec![], log: vec![], catalog: None, metas: vec![] }))
}

/// What is durable of a database.
fn durable(e: &Executor) -> Storage {
    Storage {
        pages: e.file_pages().clone(),
        log: e.log_bytes()[..e.synced_len()].to_vec(),
        catalog: e.catalog_bytes().map(|b| b.to_vec()),
        metas: e.meta_files().clone(),
    }
}

fn copy(s: &Storage) -> Storage {
    Storage {
        pages: s.pages.clone(),
        log: s.log.clone(),
        catalog: s.catalog.clone(),
        metas: s.metas.clone(),
    }
}

fn open_fresh(dir: &Dir) -> Db {
    let mut exec = Executor::open("data", copy(&dir.borrow()));
    exec.recover().unwrap();
    Db { exec, dir: dir.clone() }
}

fn float(x: f64) -> Value {
    Value::Float(Real::from_bits(x.to_bits()))
}

fn parse(sql: &str) -> Statement {
    let mut l = Lexer::new(sql);
    let tokens = l
        .tokenize()
        .unwrap()
        .into_iter()
        .map(|t| match t {
            Token::FloatText(s) => {
                Token::FloatLit(Real::from_bits(s.parse::<f64>().unwrap().to_bits()))
            }
            t => t,
        })
        .collect();
    let mut p = Parser::new(tokens);
    p.parse().unwrap()
}

fn run(e: &mut Db, sql: &str) -> Vec<Row> {
    assert!(e.has_room());
    let rows = e.execute(parse(sql)).unwrap();
    *e.dir.borrow_mut() = durable(&e.exec);
    rows
}

#[test]
fn test_data_survives_restart() {
    let dir = new_dir();

    // Session 1: create and insert
    {
        let mut e = open_fresh(&dir);
        run(&mut e, "CREATE TABLE users (id INT, name TEXT)");
        run(&mut e, "INSERT INTO users VALUES (1, 'Alice')");
        run(&mut e, "INSERT INTO users VALUES (2, 'Bob')");
    }

    // Session 2: data must still be there
    {
        let mut e = open_fresh(&dir);
        let rows = run(&mut e, "SELECT * FROM users");
        assert_eq!(rows.len(), 2, "rows should survive restart");
        assert_eq!(rows[0][0], Value::Int(1));
        assert_eq!(rows[1][1], Value::Text("Bob".into()));
    }

}

#[test]
    fn test_update_rollback_after_crash() {
        let dir = new_dir();

        // Session 1: create table, insert, commit
        {
            let mut e = open_fresh(&dir);
            run(&mut e, "CREATE TABLE accounts (id INT, balance INT)");
            run(&mut e, "INSERT INTO accounts VALUES (1, 100)");
        }

        {
            let mut e = open_fresh(&dir);
            run(&mut e, "UPDATE accounts SET balance = 200 WHERE id = 1");
        }

        {
            let mut e = open_fresh(&dir);
            let rows = run(&mut e, "SELECT * FROM accounts WHERE id = 1");
            assert_eq!(rows[0][1], Value::Int(200));
        }

    }


#[test]
fn test_update_survives_buffer_pool_pressure() {
    let dir = new_dir();

    let mut e = open_fresh(&dir);
    run(&mut e, "CREATE TABLE t (id INT, val INT)");

    // Insert enough rows to span multiple pages, forcing buffer pool churn
    for i in 0..50 {
        run(&mut e, &format!("INSERT INTO t VALUES ({}, {})", i, i * 10));
    }

    run(&mut e, "UPDATE t SET val = 9999 WHERE id = 25");

    let rows = run(&mut e, "SELECT * FROM t WHERE id = 25");
    assert_eq!(rows.len(), 1);
    assert_eq!(rows[0][1], Value::Int(9999));

}
#[test]
fn test_update_basic() {
    let dir = new_dir();

    let mut e = open_fresh(&dir);
    run(&mut e, "CREATE TABLE users (id INT, name TEXT, age INT)");
    run(&mut e, "INSERT INTO users VALUES (1, 'Alice', 30)");
    run(&mut e, "INSERT INTO users VALUES (2, 'Bob', 25)");

    run(&mut e, "UPDATE users SET age = 31 WHERE id = 1");

    let rows = run(&mut e, "SELECT * FROM users WHERE id = 1");
    assert_eq!(rows.len(), 1);
    assert_eq!(rows[0][2], Value::Int(31)); // age updated

    // Bob unchanged
    let rows2 = run(&mut e, "SELECT * FROM users WHERE id = 2");
    assert_eq!(rows2[0][2], Value::Int(25));

}

#[test]
fn test_schema_survives_restart() {
    let dir = new_dir();

    {
        let mut e = open_fresh(&dir);
        run(
            &mut e,
            "CREATE TABLE products (id INT, name TEXT, price INT)",
        );
    }

    {
        let e = open_fresh(&dir);
        let schema = e.catalog.get("products");
        assert!(schema.is_some(), "schema should survive restart");
        assert_eq!(schema.unwrap().columns.len(), 3);
    }

}

#[test]
fn test_delete_survives_restart() {
    let dir = new_dir();

    {
        let mut e = open_fresh(&dir);
        run(&mut e, "CREATE TABLE t (id INT, val TEXT)");
        run(&mut e, "INSERT INTO t VALUES (1, 'keep')");
        run(&mut e, "INSERT INTO t VALUES (2, 'delete_me')");
        run(&mut e, "DELETE FROM t WHERE id = 2");
    }

    {
        let mut e = open_fresh(&dir);
        let rows = run(&mut e, "SELECT * FROM t");
        assert_eq!(rows.len(), 1);
        assert_eq!(rows[0][0], Value::Int(1));
    }

}

#[test]
fn test_multiple_tables_survive_restart() {
    let dir = new_dir();

    {
        let mut e = open_fresh(&dir);
        run(&mut e, "CREATE TABLE a (id INT, x TEXT)");
        run(&mut e, "CREATE TABLE b (y INT, z INT)");
        run(&mut e, "INSERT INTO a VALUES (1, 'hello')");
        run(&mut e, "INSERT INTO b VALUES (10, 20)");
    }

    {
        let mut e = open_fresh(&dir);
        let ra = run(&mut e, "SELECT * FROM a");
        let rb = run(&mut e, "SELECT * FROM b");
        assert_eq!(ra.len(), 1);
        assert_eq!(rb.len(), 1);
        assert_eq!(ra[0][1], Value::Text("hello".into()));
        assert_eq!(rb[0][0], Value::Int(10));
    }

}

#[test]
fn test_select_where_after_restart() {
    let dir = new_dir();

    {
        let mut e = open_fresh(&dir);
        run(&mut e, "CREATE TABLE users (id INT, name TEXT, age INT)");
        run(&mut e, "INSERT INTO users VALUES (1, 'Alice', 30)");
        run(&mut e, "INSERT INTO users VALUES (2, 'Bob', 25)");
        run(&mut e, "INSERT INTO users VALUES (3, 'Charlie', 35)");
    }

    {
        let mut e = open_fresh(&dir);
        let rows = run(&mut e, "SELECT * FROM users WHERE age > 28");
        assert_eq!(rows.len(), 2);
    }

}
#[test]
fn test_update_no_matching_rows() {
    let dir = new_dir();
    let mut e = open_fresh(&dir);
    run(&mut e, "CREATE TABLE t (id INT, val INT)");
    run(&mut e, "INSERT INTO t VALUES (1, 100)");

    let result = run(&mut e, "UPDATE t SET val = 999 WHERE id = 999");
    assert_eq!(result.len(), 0); // no error, just no-op

    let rows = run(&mut e, "SELECT * FROM t");
    assert_eq!(rows[0][1], Value::Int(100)); // unchanged

}
#[test]
fn test_update_all_rows_no_where() {
    let dir = new_dir();
    let mut e = open_fresh(&dir);
    run(&mut e, "CREATE TABLE t (id INT, status INT)");
    run(&mut e, "INSERT INTO t VALUES (1, 0)");
    run(&mut e, "INSERT INTO t VALUES (2, 0)");
    run(&mut e, "INSERT INTO t VALUES (3, 0)");

    run(&mut e, "UPDATE t SET status = 1");

    let rows = run(&mut e, "SELECT * FROM t");
    assert_eq!(rows.len(), 3);
    assert!(rows.iter().all(|r| r[1] == Value::Int(1)));

}
#[test]
fn test_update_nonexistent_table_errors() {
    let dir = new_dir();
    let mut e = open_fresh(&dir);

    let stmt = parse("UPDATE ghost SET x = 1");

    assert!(e.execute(stmt).is_err());

}
#[test]
fn test_update_multiple_columns() {
    let dir = new_dir();
    let mut e = open_fresh(&dir);
    run(&mut e, "CREATE TABLE users (id INT, name TEXT, age INT)");
    run(&mut e, "INSERT INTO users VALUES (1, 'Alice', 30)");

    run(
        &mut e,
        "UPDATE users SET age = 31, name = 'Alica' WHERE id = 1",
    );

    let rows = run(&mut e, "SELECT * FROM users WHERE id = 1");
    assert_eq!(rows[0][1], Value::Text("Alica".into()));
    assert_eq!(rows[0][2], Value::Int(31));

}
#[test]
fn test_update_text_shrink_succeeds() {
    let dir = new_dir();
    let mut e = open_fresh(&dir);
    run(&mut e, "CREATE TABLE t (id INT, name TEXT)");
    run(&mut e, "INSERT INTO t VALUES (1, 'LongerOriginalName')");

    let result = run(&mut e, "UPDATE t SET name = 'Short' WHERE id = 1");
    assert_eq!(result.len(), 0);

    let rows = run(&mut e, "SELECT * FROM t WHERE id = 1");
    assert_eq!(rows[0][1], Value::Text("Short".into()));

}

#[test]
fn test_update_text_growth_fails_cleanly() {
    let dir = new_dir();
    let mut e = open_fresh(&dir);
    run(&mut e, "CREATE TABLE t (id INT, name TEXT)");
    run(&mut e, "INSERT INTO t VALUES (1, 'Short')");

    let stmt = parse("UPDATE t SET name = 'MuchLongerNameThanOriginal' WHERE id = 1");

    let result = e.execute(stmt);
    assert!(
        result.is_err(),
        "growing TEXT should fail in current implementation"
    );

    // Original row must be untouched after the failed update
    let rows = run(&mut e, "SELECT * FROM t WHERE id = 1");
    assert_eq!(rows[0][1], Value::Text("Short".into()));

}

// ─── NULL handling tests ─────────────────────────────────────────────────

#[test]
fn test_insert_and_select_null() {
    let dir = new_dir();
    let mut e = open_fresh(&dir);
    run(&mut e, "CREATE TABLE t (id INT, name TEXT)");
    run(&mut e, "INSERT INTO t VALUES (1, 'Alice')");
    run(&mut e, "INSERT INTO t VALUES (2, NULL)");

    let rows = run(&mut e, "SELECT * FROM t");
    assert_eq!(rows.len(), 2);
    assert_eq!(rows[0][1], Value::Text("Alice".into()));
    assert_eq!(rows[1][1], Value::Null);

}

#[test]
fn test_select_is_null() {
    let dir = new_dir();
    let mut e = open_fresh(&dir);
    run(&mut e, "CREATE TABLE t (id INT, name TEXT)");
    run(&mut e, "INSERT INTO t VALUES (1, 'Alice')");
    run(&mut e, "INSERT INTO t VALUES (2, NULL)");
    run(&mut e, "INSERT INTO t VALUES (3, 'Charlie')");

    let rows = run(&mut e, "SELECT * FROM t WHERE name IS NULL");
    assert_eq!(rows.len(), 1);
    assert_eq!(rows[0][0], Value::Int(2));

}

#[test]
fn test_select_is_not_null() {
    let dir = new_dir();
    let mut e = open_fresh(&dir);
    run(&mut e, "CREATE TABLE t (id INT, name TEXT)");
    run(&mut e, "INSERT INTO t VALUES (1, 'Alice')");
    run(&mut e, "INSERT INTO t VALUES (2, NULL)");
    run(&mut e, "INSERT INTO t VALUES (3, 'Charlie')");

    let rows = run(&mut e, "SELECT * FROM t WHERE name IS NOT NULL");
    assert_eq!(rows.len(), 2);
    assert_eq!(rows[0][1], Value::Text("Alice".into()));
    assert_eq!(rows[1][1], Value::Text("Charlie".into()));

}

#[test]
fn test_null_equality_never_matches() {
    // SQLite semantics: NULL = NULL is NOT true
    let dir = new_dir();
    let mut e = open_fresh(&dir);
    run(&mut e, "CREATE TABLE t (id INT, val INT)");
    run(&mut e, "INSERT INTO t VALUES (1, NULL)");
    run(&mut e, "INSERT INTO t VALUES (2, 42)");

    // WHERE val = NULL should match nothing (not even the NULL row)
    let rows = run(&mut e, "SELECT * FROM t WHERE val = NULL");
    assert_eq!(rows.len(), 0, "NULL = NULL must not match (SQLite semantics)");

}

#[test]
fn test_update_to_null() {
    let dir = new_dir();
    let mut e = open_fresh(&dir);
    run(&mut e, "CREATE TABLE t (id INT, name TEXT)");
    run(&mut e, "INSERT INTO t VALUES (1, 'Alice')");

    run(&mut e, "UPDATE t SET name = NULL WHERE id = 1");

    let rows = run(&mut e, "SELECT * FROM t WHERE id = 1");
    assert_eq!(rows.len(), 1);
    assert_eq!(rows[0][1], Value::Null);

    // Verify IS NULL also works on the updated row
    let null_rows = run(&mut e, "SELECT * FROM t WHERE name IS NULL");
    assert_eq!(null_rows.len(), 1);
    assert_eq!(null_rows[0][0], Value::Int(1));

}

#[test]
fn test_null_survives_restart() {
    let dir = new_dir();

    // Session 1: insert rows with NULL
    {
        let mut e = open_fresh(&dir);
        run(&mut e, "CREATE TABLE t (id INT, name TEXT, score INT)");
        run(&mut e, "INSERT INTO t VALUES (1, 'Alice', 100)");
        run(&mut e, "INSERT INTO t VALUES (2, NULL, NULL)");
        run(&mut e, "INSERT INTO t VALUES (3, 'Charlie', NULL)");
    }

    // Session 2: data must survive WAL recovery
    {
        let mut e = open_fresh(&dir);
        let rows = run(&mut e, "SELECT * FROM t");
        assert_eq!(rows.len(), 3, "all rows should survive restart");

        // Row 1: no NULLs
        assert_eq!(rows[0][0], Value::Int(1));
        assert_eq!(rows[0][1], Value::Text("Alice".into()));
        assert_eq!(rows[0][2], Value::Int(100));

        // Row 2: name=NULL, score=NULL
        assert_eq!(rows[1][0], Value::Int(2));
        assert_eq!(rows[1][1], Value::Null);
        assert_eq!(rows[1][2], Value::Null);

        // Row 3: score=NULL
        assert_eq!(rows[2][0], Value::Int(3));
        assert_eq!(rows[2][1], Value::Text("Charlie".into()));
        assert_eq!(rows[2][2], Value::Null);

        // IS NULL filter works after recovery
        let null_names = run(&mut e, "SELECT * FROM t WHERE name IS NULL");
        assert_eq!(null_names.len(), 1);
        assert_eq!(null_names[0][0], Value::Int(2));
    }

}

// ─── ORDER BY + LIMIT tests ──────────────────────────────────────────────

#[test]
fn test_order_by_asc() {
    let dir = new_dir();
    let mut e = open_fresh(&dir);
    run(&mut e, "CREATE TABLE t (id INT, age INT)");
    run(&mut e, "INSERT INTO t VALUES (1, 30)");
    run(&mut e, "INSERT INTO t VALUES (2, 20)");
    run(&mut e, "INSERT INTO t VALUES (3, 40)");

    let rows = run(&mut e, "SELECT * FROM t ORDER BY age ASC");
    assert_eq!(rows.len(), 3);
    assert_eq!(rows[0][1], Value::Int(20));
    assert_eq!(rows[1][1], Value::Int(30));
    assert_eq!(rows[2][1], Value::Int(40));

}

#[test]
fn test_order_by_asc_feat() {
    let dir = new_dir();
    let mut e = open_fresh(&dir);
    run(&mut e, "CREATE TABLE t (id INT, name TEXT, age INT)");
    run(&mut e, "INSERT INTO t VALUES (1, 'Charlie', 35)");
    run(&mut e, "INSERT INTO t VALUES (2, 'Alice', 25)");
    run(&mut e, "INSERT INTO t VALUES (3, 'Bob', 30)");

    let rows = run(&mut e, "SELECT * FROM t ORDER BY age ASC");
    assert_eq!(rows.len(), 3);
    assert_eq!(rows[0][2], Value::Int(25)); // Alice
    assert_eq!(rows[1][2], Value::Int(30)); // Bob
    assert_eq!(rows[2][2], Value::Int(35)); // Charlie

}
#[test]
fn test_order_by_desc_with_limit() {
    let dir = new_dir();
    let mut e = open_fresh(&dir);
    run(&mut e, "CREATE TABLE t (id INT, age INT)");
    run(&mut e, "INSERT INTO t VALUES (1, 30)");
    run(&mut e, "INSERT INTO t VALUES (2, 20)");
    run(&mut e, "INSERT INTO t VALUES (3, 40)");
    run(&mut e, "INSERT INTO t VALUES (4, 10)");

    let rows = run(&mut e, "SELECT * FROM t ORDER BY age DESC LIMIT 2");
    assert_eq!(rows.len(), 2);
    assert_eq!(rows[0][1], Value::Int(40));
    assert_eq!(rows[1][1], Value::Int(30));

}

#[test]
fn test_order_by_desc() {
    let dir = new_dir();
    let mut e = open_fresh(&dir);
    run(&mut e, "CREATE TABLE t (id INT, name TEXT, age INT)");
    run(&mut e, "INSERT INTO t VALUES (1, 'Charlie', 35)");
    run(&mut e, "INSERT INTO t VALUES (2, 'Alice', 25)");
    run(&mut e, "INSERT INTO t VALUES (3, 'Bob', 30)");

    let rows = run(&mut e, "SELECT * FROM t ORDER BY age DESC");
    assert_eq!(rows.len(), 3);
    assert_eq!(rows[0][2], Value::Int(35)); // Charlie
    assert_eq!(rows[1][2], Value::Int(30)); // Bob
    assert_eq!(rows[2][2], Value::Int(25)); // Alice

}

#[test]
fn test_order_by_no_limit() {
    let dir = new_dir();
    let mut e = open_fresh(&dir);
    run(&mut e, "CREATE TABLE t (id INT, name TEXT)");
    run(&mut e, "INSERT INTO t VALUES (3, 'Charlie')");
    run(&mut e, "INSERT INTO t VALUES (1, 'Alice')");
    run(&mut e, "INSERT INTO t VALUES (2, 'Bob')");

    let rows = run(&mut e, "SELECT * FROM t ORDER BY id");
    assert_eq!(rows.len(), 3);
    assert_eq!(rows[0][0], Value::Int(1));
    assert_eq!(rows[1][0], Value::Int(2));
    assert_eq!(rows[2][0], Value::Int(3));

}

#[test]
fn test_limit() {
    let dir = new_dir();
    let mut e = open_fresh(&dir);
    run(&mut e, "CREATE TABLE t (id INT, val INT)");
    for i in 1..=10 {
        run(&mut e, &format!("INSERT INTO t VALUES ({}, {})", i, i * 10));
    }

    let rows = run(&mut e, "SELECT * FROM t LIMIT 3");
    assert_eq!(rows.len(), 3);

}

#[test]
fn test_order_by_with_limit() {
    let dir = new_dir();
    let mut e = open_fresh(&dir);
    run(&mut e, "CREATE TABLE t (id INT, score INT)");
    run(&mut e, "INSERT INTO t VALUES (1, 80)");
    run(&mut e, "INSERT INTO t VALUES (2, 95)");
    run(&mut e, "INSERT INTO t VALUES (3, 70)");
    run(&mut e, "INSERT INTO t VALUES (4, 90)");
    run(&mut e, "INSERT INTO t VALUES (5, 85)");

    // Top 3 scores
    let rows = run(&mut e, "SELECT * FROM t ORDER BY score DESC LIMIT 3");
    assert_eq!(rows.len(), 3);
    assert_eq!(rows[0][1], Value::Int(95));
    assert_eq!(rows[1][1], Value::Int(90));
    assert_eq!(rows[2][1], Value::Int(85));

}

#[test]
fn test_order_by_with_where() {
    let dir = new_dir();
    let mut e = open_fresh(&dir);
    run(&mut e, "CREATE TABLE t (id INT, name TEXT, age INT)");
    run(&mut e, "INSERT INTO t VALUES (1, 'Alice', 30)");
    run(&mut e, "INSERT INTO t VALUES (2, 'Bob', 17)");
    run(&mut e, "INSERT INTO t VALUES (3, 'Charlie', 25)");
    run(&mut e, "INSERT INTO t VALUES (4, 'Dave', 15)");
    run(&mut e, "INSERT INTO t VALUES (5, 'Eve', 22)");

    let rows = run(&mut e, "SELECT * FROM t WHERE age > 18 ORDER BY age ASC LIMIT 2");
    assert_eq!(rows.len(), 2);
    assert_eq!(rows[0][2], Value::Int(22)); // Eve
    assert_eq!(rows[1][2], Value::Int(25)); // Charlie

}

#[test]
fn test_order_by_text() {
    let dir = new_dir();
    let mut e = open_fresh(&dir);
    run(&mut e, "CREATE TABLE t (id INT, name TEXT)");
    run(&mut e, "INSERT INTO t VALUES (1, 'Charlie')");
    run(&mut e, "INSERT INTO t VALUES (2, 'Alice')");
    run(&mut e, "INSERT INTO t VALUES (3, 'Bob')");

    let rows = run(&mut e, "SELECT * FROM t ORDER BY name ASC");
    assert_eq!(rows[0][1], Value::Text("Alice".into()));
    assert_eq!(rows[1][1], Value::Text("Bob".into()));
    assert_eq!(rows[2][1], Value::Text("Charlie".into()));

}

// ─── Index tests ────────────────────────────────────────────────────────

#[test]
fn test_index_eq_lookup() {
    let dir = new_dir();
    let mut e = open_fresh(&dir);
    run(&mut e, "CREATE TABLE t (id INT, name TEXT, score INT)");

    // Manually create index on 'id' column
    e.index_manager.create_index("t", "id");

    run(&mut e, "INSERT INTO t VALUES (10, 'Alice', 100)");
    run(&mut e, "INSERT INTO t VALUES (20, 'Bob', 200)");
    run(&mut e, "INSERT INTO t VALUES (30, 'Charlie', 300)");

    // Eq lookup via index
    let rows = run(&mut e, "SELECT * FROM t WHERE id = 20");
    assert_eq!(rows.len(), 1);
    assert_eq!(rows[0][0], Value::Int(20));
    assert_eq!(rows[0][1], Value::Text("Bob".into()));

    // Non-existent key
    let rows = run(&mut e, "SELECT * FROM t WHERE id = 99");
    assert_eq!(rows.len(), 0);

}

#[test]
fn test_index_range_lookup() {
    let dir = new_dir();
    let mut e = open_fresh(&dir);
    run(&mut e, "CREATE TABLE t (id INT, val INT)");
    e.index_manager.create_index("t", "id");

    for i in 1..=10 {
        run(&mut e, &format!("INSERT INTO t VALUES ({}, {})", i, i * 10));
    }

    // Gt: id > 7 → 8, 9, 10
    let rows = run(&mut e, "SELECT * FROM t WHERE id > 7 ORDER BY id ASC");
    assert_eq!(rows.len(), 3);
    assert_eq!(rows[0][0], Value::Int(8));
    assert_eq!(rows[2][0], Value::Int(10));

    // Le: id <= 3 → 1, 2, 3
    let rows = run(&mut e, "SELECT * FROM t WHERE id <= 3 ORDER BY id ASC");
    assert_eq!(rows.len(), 3);
    assert_eq!(rows[0][0], Value::Int(1));
    assert_eq!(rows[2][0], Value::Int(3));

}

#[test]
fn test_index_maintained_on_delete() {
    let dir = new_dir();
    let mut e = open_fresh(&dir);
    run(&mut e, "CREATE TABLE t (id INT, val INT)");
    e.index_manager.create_index("t", "id");

    run(&mut e, "INSERT INTO t VALUES (1, 100)");
    run(&mut e, "INSERT INTO t VALUES (2, 200)");
    run(&mut e, "INSERT INTO t VALUES (3, 300)");

    // Delete row with id=2
    run(&mut e, "DELETE FROM t WHERE id = 2");

    // Index lookup for id=2 should return nothing
    let rows = run(&mut e, "SELECT * FROM t WHERE id = 2");
    assert_eq!(rows.len(), 0);

    // Other rows still accessible via index
    let rows = run(&mut e, "SELECT * FROM t WHERE id = 1");
    assert_eq!(rows.len(), 1);
    let rows = run(&mut e, "SELECT * FROM t WHERE id = 3");
    assert_eq!(rows.len(), 1);

}

#[test]
fn test_index_maintained_on_update() {
    let dir = new_dir();
    let mut e = open_fresh(&dir);
    run(&mut e, "CREATE TABLE t (id INT, val INT)");
    e.index_manager.create_index("t", "val");

    run(&mut e, "INSERT INTO t VALUES (1, 100)");
    run(&mut e, "INSERT INTO t VALUES (2, 200)");

    // Update val from 100 to 999
    run(&mut e, "UPDATE t SET val = 999 WHERE id = 1");

    // Old key gone from index
    let rows = run(&mut e, "SELECT * FROM t WHERE val = 100");
    assert_eq!(rows.len(), 0);

    // New key present in index
    let rows = run(&mut e, "SELECT * FROM t WHERE val = 999");
    assert_eq!(rows.len(), 1);
    assert_eq!(rows[0][0], Value::Int(1));

}

#[test]
fn test_index_with_no_index_falls_back_to_seqscan() {
    // When no index exists, seq scan should still work correctly
    let dir = new_dir();
    let mut e = open_fresh(&dir);
    run(&mut e, "CREATE TABLE t (id INT, name TEXT)");
    // No index created
    run(&mut e, "INSERT INTO t VALUES (1, 'Alice')");
    run(&mut e, "INSERT INTO t VALUES (2, 'Bob')");

    let rows = run(&mut e, "SELECT * FROM t WHERE id = 1");
    assert_eq!(rows.len(), 1);
    assert_eq!(rows[0][1], Value::Text("Alice".into()));

}

// ─── PRIMARY KEY tests ──────────────────────────────────────────────────

#[test]
fn test_primary_key_rejects_duplicate() {
    let dir = new_dir();
    let mut e = open_fresh(&dir);
    run(&mut e, "CREATE TABLE t (id INT PRIMARY KEY, name TEXT)");
    run(&mut e, "INSERT INTO t VALUES (1, 'Alice')");

    // Duplicate PK should fail
    let stmt = parse("INSERT INTO t VALUES (1, 'Bob')");
    let result = e.execute(stmt);
    assert!(result.is_err(), "duplicate PK should be rejected");
    assert!(result.unwrap_err().contains("duplicate primary key"));

    // Original row intact
    let rows = run(&mut e, "SELECT * FROM t WHERE id = 1");
    assert_eq!(rows.len(), 1);
    assert_eq!(rows[0][1], Value::Text("Alice".into()));

}

#[test]
fn test_primary_key_rejects_null() {
    let dir = new_dir();
    let mut e = open_fresh(&dir);
    run(&mut e, "CREATE TABLE t (id INT PRIMARY KEY, name TEXT)");

    let stmt = parse("INSERT INTO t VALUES (NULL, 'Alice')");
    let result = e.execute(stmt);
    assert!(result.is_err(), "NULL PK should be rejected");
    assert!(result.unwrap_err().contains("cannot be NULL"));

}

#[test]
fn test_primary_key_auto_index() {
    let dir = new_dir();
    let mut e = open_fresh(&dir);
    run(&mut e, "CREATE TABLE t (id INT PRIMARY KEY, val INT)");

    // Index should be auto-created
    assert!(e.index_manager.has_index("t", "id"));

    run(&mut e, "INSERT INTO t VALUES (10, 100)");
    run(&mut e, "INSERT INTO t VALUES (20, 200)");
    run(&mut e, "INSERT INTO t VALUES (30, 300)");

    // Should use index for lookup
    let rows = run(&mut e, "SELECT * FROM t WHERE id = 20");
    assert_eq!(rows.len(), 1);
    assert_eq!(rows[0][1], Value::Int(200));

}

#[test]
fn test_primary_key_allows_unique_inserts() {
    let dir = new_dir();
    let mut e = open_fresh(&dir);
    run(&mut e, "CREATE TABLE t (id INT PRIMARY KEY, name TEXT)");
    run(&mut e, "INSERT INTO t VALUES (1, 'Alice')");
    run(&mut e, "INSERT INTO t VALUES (2, 'Bob')");
    run(&mut e, "INSERT INTO t VALUES (3, 'Charlie')");

    let rows = run(&mut e, "SELECT * FROM t ORDER BY id ASC");

    assert_eq!(rows.len(), 3);
    assert_eq!(rows[0][0], Value::Int(1));
    assert_eq!(rows[1][0], Value::Int(2));
    assert_eq!(rows[2][0], Value::Int(3));

}


#[test]
fn test_primary_key_update_duplicate_rejected() {
    let dir = new_dir();
    let mut e = open_fresh(&dir);
    run(&mut e, "CREATE TABLE t (id INT PRIMARY KEY, name TEXT)");
    run(&mut e, "INSERT INTO t VALUES (1, 'Alice')");
    run(&mut e, "INSERT INTO t VALUES (2, 'Bob')");

    // Try to update id=2 to id=1 (duplicate)
    let stmt = parse("UPDATE t SET id = 1 WHERE id = 2");
    let result = e.execute(stmt);
    assert!(result.is_err(), "updating to duplicate PK should fail");

}

#[test]
fn test_parse_primary_key() {
    let sql = "CREATE TABLE t (id INT PRIMARY KEY, name TEXT)";
    let stmt = parse(sql);

    if let Statement::CreateTable { columns, .. } = stmt {
        assert!(columns[0].primary_key);
        assert!(!columns[1].primary_key);
    } else {
        panic!("expected CreateTable");
    }
}

#[test]
fn test_primary_key_and_index_survives_restart() {
    let dir = new_dir();
    {
        let mut e = open_fresh(&dir);
        run(&mut e, "CREATE TABLE t (id INT PRIMARY KEY, val INT)");
        run(&mut e, "INSERT INTO t VALUES (10, 100)");
        run(&mut e, "INSERT INTO t VALUES (20, 200)");
    }

    // Restart
    {
        let mut e = open_fresh(&dir);

        // Index lookup should work (proves index survived/rebuilt)
        let rows = run(&mut e, "SELECT * FROM t WHERE id = 20");
        assert_eq!(rows.len(), 1);
        assert_eq!(rows[0][1], Value::Int(200));

        // Inserting duplicate should fail (proves PK constraint survived)
        let stmt = parse("INSERT INTO t VALUES (10, 999)");
        let result = e.execute(stmt);
        assert!(result.is_err(), "duplicate PK should be rejected after restart");
    }

}

#[test]
fn test_float_insert_and_select() {
    let dir = new_dir();
    let mut e = open_fresh(&dir);
    run(&mut e, "CREATE TABLE t (id INT, val FLOAT)");
    run(&mut e, "INSERT INTO t VALUES (1, 3.14)");
    run(&mut e, "INSERT INTO t VALUES (2, -0.5)");

    let rows = run(&mut e, "SELECT * FROM t");
    assert_eq!(rows.len(), 2);
    assert_eq!(rows[0][1], float(3.14));
    assert_eq!(rows[1][1], float(-0.5));
}

#[test]
fn test_float_order_by() {
    let dir = new_dir();
    let mut e = open_fresh(&dir);
    run(&mut e, "CREATE TABLE t (id INT, val FLOAT)");
    run(&mut e, "INSERT INTO t VALUES (1, 3.14)");
    run(&mut e, "INSERT INTO t VALUES (2, -0.5)");
    run(&mut e, "INSERT INTO t VALUES (3, 10.0)");
    run(&mut e, "INSERT INTO t VALUES (4, 0.0)");

    let rows = run(&mut e, "SELECT * FROM t ORDER BY val ASC");
    assert_eq!(rows[0][1], float(-0.5));
    assert_eq!(rows[1][1], float(0.0));
    assert_eq!(rows[2][1], float(3.14));
    assert_eq!(rows[3][1], float(10.0));
}

#[test]
fn test_float_where_filter() {
    let dir = new_dir();
    let mut e = open_fresh(&dir);
    run(&mut e, "CREATE TABLE t (id INT, val FLOAT)");
    run(&mut e, "INSERT INTO t VALUES (1, 3.14)");
    run(&mut e, "INSERT INTO t VALUES (2, 5.0)");

    let rows = run(&mut e, "SELECT * FROM t WHERE val > 4.0");
    assert_eq!(rows.len(), 1);
    assert_eq!(rows[0][1], float(5.0));

    // Mixed type comparison (int vs float)
    let rows2 = run(&mut e, "SELECT * FROM t WHERE val < 4");
    assert_eq!(rows2.len(), 1);
    assert_eq!(rows2[0][1], float(3.14));
}

#[test]
fn test_float_survives_restart() {
    let dir = new_dir();
    {
        let mut e = open_fresh(&dir);
        run(&mut e, "CREATE TABLE t (id INT, val FLOAT)");
        run(&mut e, "INSERT INTO t VALUES (1, 2.718)");
    }
    {
        let mut e = open_fresh(&dir);
        let rows = run(&mut e, "SELECT * FROM t");
        assert_eq!(rows.len(), 1);
        assert_eq!(rows[0][1], float(2.718));
    }
}

#[test]
fn test_float_null_mixed() {
    let dir = new_dir();
    let mut e = open_fresh(&dir);
    run(&mut e, "CREATE TABLE t (id INT, val FLOAT)");
    run(&mut e, "INSERT INTO t VALUES (1, 1.1)");
    run(&mut e, "INSERT INTO t VALUES (2, NULL)");
    run(&mut e, "INSERT INTO t VALUES (3, -1.1)");

    let rows = run(&mut e, "SELECT * FROM t ORDER BY val ASC");
    assert_eq!(rows[0][1], float(-1.1));
    assert_eq!(rows[1][1], float(1.1));
    assert_eq!(rows[2][1], Value::Null);
}
