use venom_db::sql::ast::{DataType, Op, OrderDir, SelectColumns, Statement, Value};
use venom_db::sql::lexer::Lexer;
use venom_db::sql::parser::Parser;

fn parse(sql: &str) -> Statement {
    let mut l = Lexer::new(sql);
    let tokens = l.tokenize().unwrap();
    let mut p = Parser::new(tokens);
    p.parse().unwrap()
}

#[test]
fn test_parse_create() {
    let s = parse("CREATE TABLE users (id INT, name TEXT, age INT)");
    assert!(matches!(s, Statement::CreateTable { .. }));
    if let Statement::CreateTable { table, columns } = s {
        assert_eq!(table, "users");
        assert_eq!(columns.len(), 3);
        assert_eq!(columns[0].name, "id");
        assert_eq!(columns[1].ty, DataType::Text);
    }
}
#[test]
fn test_parse_update() {
    let sql = "UPDATE users SET age = 31 WHERE id = 1";
     let mut l = Lexer::new(sql);
     let tokens = l.tokenize().unwrap();
     let mut p = Parser::new(tokens);
    let stmt = p.parse().unwrap();

    match stmt {
         Statement::Update { table, assignments, filter } => {
             assert_eq!(table, "users");
            assert_eq!(assignments.len(), 1);
            assert_eq!(assignments[0].column, "age");
            assert_eq!(assignments[0].value, Value::Int(31));
             assert!(filter.is_some());
    }
    _ => panic!("expected Update"),
}
}

#[test]
fn test_parse_insert() {
    let s = parse("INSERT INTO users VALUES (1, 'Ayush', 21)");
    assert!(matches!(s, Statement::Insert { .. }));
    if let Statement::Insert { table, values } = s {
        assert_eq!(table, "users");
        assert_eq!(values[0], Value::Int(1));
        assert_eq!(values[1], Value::Text("Ayush".into()));
    }
}

#[test]
fn test_parse_select_star() {
    let s = parse("SELECT * FROM users");
    assert!(matches!(s, Statement::Select { columns: SelectColumns::Star, .. }));
}

#[test]
fn test_parse_select_with_where() {
    let s = parse("SELECT name, age FROM users WHERE id = 1");
    if let Statement::Select { columns, filter, .. } = s {
        assert!(matches!(columns, SelectColumns::Named(_)));
        let f = filter.unwrap();
        assert_eq!(f.left, "id");
        assert_eq!(f.op, Op::Eq);
        assert_eq!(f.right, Value::Int(1));
    }
}

#[test]
fn test_parse_delete_with_where() {
    let s = parse("DELETE FROM users WHERE id = 1");
    if let Statement::Delete { table, filter } = s {
        assert_eq!(table, "users");
        assert!(filter.is_some());
    }
}

#[test]
fn test_parse_order_by_desc() {
    let s = parse("SELECT * FROM users ORDER BY age DESC");
    if let Statement::Select { order_by, limit, .. } = s {
        let (col, dir) = order_by.unwrap();
        assert_eq!(col, "age");
        assert_eq!(dir, OrderDir::Desc);
        assert!(limit.is_none());
    } else {
        panic!("expected Select");
    }
}

#[test]
fn test_parse_order_by_asc_default() {
    let s = parse("SELECT * FROM users ORDER BY name");
    if let Statement::Select { order_by, .. } = s {
        let (col, dir) = order_by.unwrap();
        assert_eq!(col, "name");
        assert_eq!(dir, OrderDir::Asc); // default
    } else {
        panic!("expected Select");
    }
}

#[test]
fn test_parse_limit() {
    let s = parse("SELECT * FROM users LIMIT 5");
    if let Statement::Select { order_by, limit, .. } = s {
        assert!(order_by.is_none());
        assert_eq!(limit, Some(5));
    } else {
        panic!("expected Select");
    }
}

#[test]
fn test_parse_order_by_with_limit() {
    let s = parse("SELECT * FROM users WHERE age > 18 ORDER BY age DESC LIMIT 10");
    if let Statement::Select { filter, order_by, limit, .. } = s {
        assert!(filter.is_some());
        let (col, dir) = order_by.unwrap();
        assert_eq!(col, "age");
        assert_eq!(dir, OrderDir::Desc);
        assert_eq!(limit, Some(10));
    } else {
        panic!("expected Select");
    }
}
