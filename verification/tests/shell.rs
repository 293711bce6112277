use venom_db::concurrency::lock_manager::LockMode;
use venom_db::shell::{extract_table, looks_complete, needed_lock, outcome_text, Shell, Step};

fn run(sql: &str, table: Option<&str>) -> Step {
    Step::Run { sql: sql.into(), table: table.map(|t| t.into()), waiting: false }
}

#[test]
fn commands_are_read_in_any_case() {
    let mut shell = Shell::new();
    assert_eq!(shell.take_line("\\help\n"), Step::Help);
    assert_eq!(shell.take_line("\\H"), Step::Help);
    assert_eq!(shell.take_line("  \\Tables "), Step::Tables);
    assert_eq!(shell.take_line("quit"), Step::Quit);
    assert_eq!(shell.take_line("\\q"), Step::Quit);
    assert_eq!(shell.take_line("Exit"), Step::Quit);
}

#[test]
fn statements_can_span_lines() {
    let mut shell = Shell::new();
    assert_eq!(shell.take_line("UPDATE t"), Step::More);
    assert!(shell.in_statement());
    assert_eq!(shell.take_line("SET a = 1;"), run("UPDATE t SET a = 1", None));
    assert!(!shell.in_statement());
    assert_eq!(shell.take_line("select * from t"), run("select * from t", Some("t")));
    assert_eq!(shell.take_line(";;"), Step::Nothing);
}

#[test]
fn transactions_begin_and_end() {
    let mut shell = Shell::new();
    assert_eq!(shell.take_line("COMMIT"), Step::NoTxn);
    assert_eq!(shell.take_line("ROLLBACK;"), Step::NoTxn);
    assert_eq!(shell.take_line("begin;"), Step::Began(1));
    assert_eq!(shell.current_txn(), Some(1));
    assert_eq!(shell.take_line("BEGIN"), Step::AlreadyInTxn);
    assert_eq!(
        shell.take_line("INSERT INTO t VALUES (1)"),
        run("INSERT INTO t VALUES (1)", Some("t"))
    );
    assert_eq!(shell.take_line("commit"), Step::Committed(1));
    assert_eq!(shell.current_txn(), None);
    assert_eq!(shell.take_line("BEGIN"), Step::Began(2));
    assert_eq!(shell.take_line("rollback"), Step::RolledBack(2));
    assert!(shell.has_room());
}

#[test]
fn the_table_is_the_name_after_a_keyword() {
    assert_eq!(extract_table("SELECT * from Users WHERE a = 1"), Some("Users".to_string()));
    assert_eq!(extract_table("insert INTO t VALUES (1)"), Some("t".to_string()));
    assert_eq!(extract_table("CREATE TABLE t(a INT)"), Some("t".to_string()));
    assert_eq!(extract_table("UPDATE t SET a = 1"), None);
}

#[test]
fn outcomes_are_said() {
    assert_eq!(outcome_text("create table t (a INT)"), "Table created.");
    assert_eq!(outcome_text("INSERT INTO t VALUES (1)"), "1 row inserted.");
    assert_eq!(outcome_text("DELETE FROM t"), "Rows deleted.");
    assert_eq!(outcome_text("SELECT * FROM t"), "");
}

#[test]
fn some_lines_need_no_semicolon() {
    assert!(looks_complete(" select 1"));
    assert!(looks_complete("Delete from t"));
    assert!(!looks_complete("update t"));
    assert!(!looks_complete(""));
}

#[test]
fn statements_that_change_rows_need_an_exclusive_lock() {
    assert_eq!(needed_lock("INSERT INTO t VALUES (1)"), LockMode::Exclusive);
    assert_eq!(needed_lock("update t set a = 1"), LockMode::Exclusive);
    assert_eq!(needed_lock("Delete FROM t"), LockMode::Exclusive);
    assert_eq!(needed_lock("SELECT * FROM t"), LockMode::Shared);
    assert_eq!(needed_lock("CREATE TABLE t (a INT)"), LockMode::Shared);
}
