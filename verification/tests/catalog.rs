use venom_db::engine::catalog::Schema;
use venom_db::sql::ast::{ColumnDef, DataType, Value};

fn make_schema() -> Schema {
    Schema::new("users".into(), vec![
        ColumnDef { name: "id".into(),   ty: DataType::Int,  primary_key: false },
        ColumnDef { name: "name".into(), ty: DataType::Text, primary_key: false },
        ColumnDef { name: "age".into(),  ty: DataType::Int,  primary_key: false },
    ])
}

#[test]
fn test_serialize_roundtrip() {
    let schema = make_schema();
    let row = vec![Value::Int(1), Value::Text("Ayush".into()), Value::Int(21)];
    let bytes = schema.serialize_row(&row).unwrap();
    let back = schema.deserialize_row(&bytes).unwrap();
    assert_eq!(row, back);
}

#[test]
fn test_type_mismatch_error() {
    let schema = make_schema();
    // pass Text where Int expected
    let row = vec![Value::Text("oops".into()), Value::Text("x".into()), Value::Int(1)];
    assert!(schema.serialize_row(&row).is_err());
}

#[test]
fn test_col_index() {
    let schema = make_schema();
    assert_eq!(schema.col_index("id"), Some(0));
    assert_eq!(schema.col_index("name"), Some(1));
    assert_eq!(schema.col_index("missing"), None);
}
