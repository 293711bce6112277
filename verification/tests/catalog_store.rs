use venom_db::engine::catalog::{Catalog, Schema};
use venom_db::sql::ast::{ColumnDef, DataType};
use venom_db::storage::catalog_store::CatalogStore;

fn make_catalog() -> Catalog {
    let mut c = Catalog::new();
    c.create_table(Schema::new("users".into(), vec![
        ColumnDef { name: "id".into(),   ty: DataType::Int,  primary_key: false },
        ColumnDef { name: "name".into(), ty: DataType::Text, primary_key: false },
        ColumnDef { name: "age".into(),  ty: DataType::Int,  primary_key: false },
    ])).unwrap();
    c.create_table(Schema::new("posts".into(), vec![
        ColumnDef { name: "post_id".into(), ty: DataType::Int,  primary_key: false },
        ColumnDef { name: "body".into(),    ty: DataType::Text, primary_key: false },
    ])).unwrap();
    c
}

#[test]
fn test_catalog_roundtrip() {
    let store = CatalogStore::new("/tmp/venom_catalog_test");
    assert_eq!(store.path(), "/tmp/venom_catalog_test/catalog.bin");

    let original = make_catalog();
    let file = store.save(&original);

    let loaded = store.load(Some(file.as_slice())).unwrap();

    // Same tables present
    assert!(loaded.get("users").is_some());
    assert!(loaded.get("posts").is_some());

    // Same columns
    let users = loaded.get("users").unwrap();
    assert_eq!(users.columns.len(), 3);
    assert_eq!(users.columns[0].name, "id");
    assert_eq!(users.columns[0].ty, DataType::Int);
    assert_eq!(users.columns[1].name, "name");
    assert_eq!(users.columns[1].ty, DataType::Text);

    let posts = loaded.get("posts").unwrap();
    assert_eq!(posts.columns.len(), 2);
}

#[test]
fn test_empty_catalog_on_first_run() {
    let store = CatalogStore::new("/tmp/venom_no_such_dir_xyz");
    let catalog = store.load(None).unwrap();
    assert!(catalog.tables.is_empty());
}

#[test]
fn test_v1_backward_compatibility() {
    // A catalog file of the first version.
    let mut buf = Vec::new();
    // num_tables = 1
    buf.extend(&1u32.to_le_bytes());
    // table name "t"
    let t_name = "t".as_bytes();
    buf.extend(&(t_name.len() as u32).to_le_bytes());
    buf.extend(t_name);
    // num_cols = 1
    buf.extend(&1u32.to_le_bytes());
    // col name "id"
    let c_name = "id".as_bytes();
    buf.extend(&(c_name.len() as u32).to_le_bytes());
    buf.extend(c_name);
    // type tag 0 (INT)
    buf.push(0u8);

    let store = CatalogStore::new("/tmp/venom_catalog_v1_compat");
    let catalog = store.load(Some(buf.as_slice())).unwrap();

    assert_eq!(catalog.tables.len(), 1);
    let t = catalog.get("t").unwrap();
    assert_eq!(t.columns.len(), 1);
    assert_eq!(t.columns[0].name, "id");
    assert_eq!(t.columns[0].ty, DataType::Int);
    assert_eq!(t.columns[0].primary_key, false);
}

#[test]
fn catalog_round_trip_keeps_keys_and_index_definitions() {
    let mut c = make_catalog();
    c.create_table(Schema::new("k".into(), vec![
        ColumnDef { name: "id".into(), ty: DataType::Int, primary_key: true },
        ColumnDef { name: "x".into(), ty: DataType::Float, primary_key: false },
    ])).unwrap();
    c.index_defs.push(("k".into(), "id".into()));
    let store = CatalogStore::new("d");
    let file = store.save(&c);
    assert_eq!(&file[..5], &[0xff, 0xff, 0xff, 0xff, 2]);
    let back = store.load(Some(file.as_slice())).unwrap();
    let k = back.get("k").unwrap();
    assert_eq!(k.primary_key, Some("id".to_string()));
    assert_eq!(k.columns[1].ty, DataType::Float);
    assert_eq!(back.index_defs, vec![("k".to_string(), "id".to_string())]);
}

#[test]
fn broken_catalog_files_are_refused() {
    let store = CatalogStore::new("d");
    assert!(store.load(Some([1u8, 0].as_slice())).is_err());
    assert!(store.load(Some([0xff, 0xff, 0xff, 0xff].as_slice())).is_err());
    let mut file = store.save(&make_catalog());
    file.truncate(20);
    assert!(store.load(Some(file.as_slice())).is_err());
    // An unknown type tag.
    let mut buf: Vec<u8> = vec![1, 0, 0, 0, 1, 0, 0, 0, b't', 1, 0, 0, 0, 1, 0, 0, 0, b'c', 9];
    assert!(store.load(Some(buf.as_slice())).is_err());
    buf[18] = 1;
    assert!(store.load(Some(buf.as_slice())).is_ok());
}

#[test]
fn a_table_name_is_taken_once() {
    let mut c = make_catalog();
    let again = Schema::new("users".into(), vec![]);
    assert_eq!(c.create_table(again), Err("table 'users' already exists".to_string()));
}
