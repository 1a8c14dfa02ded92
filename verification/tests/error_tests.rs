// One test per error variant: each failure is an explicit result value.

use njord::backend;
use njord::error::{ConnectError, ExecError, QueryError, SchemaError, ValidationError};
use njord::query::{drop_table, insert, select, update, Entity};
use njord::schema::{Column, SqlType, TableDescriptor};
use njord::value::Value;

fn items_table() -> TableDescriptor {
    TableDescriptor {
        name: "items".to_string(),
        columns: vec![
            Column {
                name: "label".to_string(),
                sql_type: SqlType::Text,
                primary_key_auto: false,
                nullable: false,
            },
        ],
    }
}

fn item(label: &str) -> Entity {
    Entity { descriptor: items_table(), values: vec![Value::Text(label.to_string())] }
}

#[test]
fn open_empty_name_is_connect_error() {
    match backend::open("") {
        Err(ConnectError::EmptyName) => {}
        other => panic!("expected EmptyName, got {:?}", other),
    }
}

#[test]
fn select_without_from_is_missing_from() {
    let conn = backend::open("e1.db").unwrap();
    match select(vec!["label".to_string()]).build(&conn) {
        Err(QueryError::Validation(ValidationError::MissingFrom)) => {}
        other => panic!("expected MissingFrom, got {:?}", other),
    }
}

#[test]
fn update_without_set_is_missing_set() {
    let mut conn = backend::open("e2.db").unwrap();
    backend::init(&mut conn, vec![items_table()]).unwrap();
    match update(item("x")).build(&mut conn) {
        Err(QueryError::Validation(ValidationError::MissingSet)) => {}
        other => panic!("expected MissingSet, got {:?}", other),
    }
}

#[test]
fn select_unknown_column_is_reported() {
    let mut conn = backend::open("e3.db").unwrap();
    backend::init(&mut conn, vec![items_table()]).unwrap();
    match select(vec!["ghost".to_string()]).from(&items_table()).build(&conn) {
        Err(QueryError::Validation(ValidationError::UnknownColumn(n))) => assert_eq!(n, "ghost"),
        other => panic!("expected UnknownColumn, got {:?}", other),
    }
}

#[test]
fn insert_wrong_arity_is_rejected() {
    let mut conn = backend::open("e4.db").unwrap();
    backend::init(&mut conn, vec![items_table()]).unwrap();
    let bad = Entity {
        descriptor: items_table(),
        values: vec![Value::Text("a".to_string()), Value::Integer(1)],
    };
    match insert(&mut conn, vec![bad]) {
        Err(QueryError::Validation(ValidationError::ArityMismatch)) => {}
        other => panic!("expected ArityMismatch, got {:?}", other),
    }
}

#[test]
fn insert_mixed_descriptors_is_rejected() {
    let mut conn = backend::open("e5.db").unwrap();
    backend::init(&mut conn, vec![items_table()]).unwrap();
    let other_table = TableDescriptor { name: "other".to_string(), columns: vec![] };
    let stray = Entity { descriptor: other_table, values: vec![Value::Null] };
    match insert(&mut conn, vec![item("a"), stray]) {
        Err(QueryError::Validation(ValidationError::MixedDescriptors)) => {}
        other => panic!("expected MixedDescriptors, got {:?}", other),
    }
}

#[test]
fn insert_empty_batch_is_rejected() {
    let mut conn = backend::open("e6.db").unwrap();
    backend::init(&mut conn, vec![items_table()]).unwrap();
    match insert(&mut conn, vec![]) {
        Err(QueryError::Validation(ValidationError::NoRows)) => {}
        other => panic!("expected NoRows, got {:?}", other),
    }
}

#[test]
fn statement_on_missing_table_is_exec_error() {
    let mut conn = backend::open("e7.db").unwrap();
    match insert(&mut conn, vec![item("a")]) {
        Err(QueryError::Exec(ExecError::NoSuchTable(n))) => assert_eq!(n, "items"),
        other => panic!("expected NoSuchTable, got {:?}", other),
    }
    match drop_table(&mut conn, &items_table()) {
        Err(QueryError::Exec(ExecError::NoSuchTable(n))) => assert_eq!(n, "items"),
        other => panic!("expected NoSuchTable, got {:?}", other),
    }
}

#[test]
fn init_duplicate_table_is_schema_error() {
    let mut conn = backend::open("e8.db").unwrap();
    backend::init(&mut conn, vec![items_table()]).unwrap();
    match backend::init(&mut conn, vec![items_table()]) {
        Err(SchemaError::DuplicateTable(n)) => assert_eq!(n, "items"),
        other => panic!("expected DuplicateTable, got {:?}", other),
    }
}

#[test]
fn init_bad_descriptor_is_schema_error() {
    let mut conn = backend::open("e9.db").unwrap();
    let nameless = TableDescriptor { name: "".to_string(), columns: items_table().columns };
    match backend::init(&mut conn, vec![nameless]) {
        Err(SchemaError::BadDescriptor(n)) => assert_eq!(n, ""),
        other => panic!("expected BadDescriptor, got {:?}", other),
    }
    // Two columns of one name are refused too.
    let doubled = TableDescriptor {
        name: "doubled".to_string(),
        columns: vec![
            Column {
                name: "x".to_string(),
                sql_type: SqlType::Text,
                primary_key_auto: false,
                nullable: false,
            },
            Column {
                name: "x".to_string(),
                sql_type: SqlType::Integer,
                primary_key_auto: false,
                nullable: false,
            },
        ],
    };
    match backend::init(&mut conn, vec![doubled]) {
        Err(SchemaError::BadDescriptor(n)) => assert_eq!(n, "doubled"),
        other => panic!("expected BadDescriptor, got {:?}", other),
    }
}

#[test]
fn value_equality_is_by_content() {
    assert!(njord::value::value_eq(
        &Value::Text("abc".to_string()),
        &Value::Text("abc".to_string())
    ));
    assert!(!njord::value::value_eq(
        &Value::Text("abc".to_string()),
        &Value::Text("abd".to_string())
    ));
    assert!(njord::value::value_eq(&Value::Blob(vec![1, 2]), &Value::Blob(vec![1, 2])));
    assert!(!njord::value::value_eq(&Value::Blob(vec![1, 2]), &Value::Blob(vec![1])));
    assert!(!njord::value::value_eq(&Value::Null, &Value::Integer(0)));
}
