// Integration tests for the in-memory backend adapter.

use njord::backend::{self, Connection};
use njord::query::{self, Entity};
use njord::schema::{Column, SqlType, TableDescriptor};
use njord::value::Value;
use njord::condition::Condition;

fn table_a() -> TableDescriptor {
    TableDescriptor {
        name: "table_a".to_string(),
        columns: vec![
            Column {
                name: "title".to_string(),
                sql_type: SqlType::Text,
                primary_key_auto: false,
                nullable: false,
            },
            Column {
                name: "description".to_string(),
                sql_type: SqlType::Text,
                primary_key_auto: false,
                nullable: false,
            },
            Column {
                name: "amount".to_string(),
                sql_type: SqlType::Integer,
                primary_key_auto: false,
                nullable: false,
            },
        ],
    }
}

fn table_a_row(title: &str, description: &str, amount: i64) -> Entity {
    Entity {
        descriptor: table_a(),
        values: vec![
            Value::Text(title.to_string()),
            Value::Text(description.to_string()),
            Value::Integer(amount),
        ],
    }
}

fn open_with_tables(db_name: &str) -> Connection {
    let mut conn = backend::open(db_name).unwrap();
    backend::init(&mut conn, vec![table_a()]).unwrap();
    conn
}

#[test]
fn open_db() {
    let result = backend::open("test_database.db");
    assert!(result.is_ok());
}

#[test]
fn init_tables() {
    let db_name = "init_tables.db";
    let mut conn = backend::open(db_name).unwrap();

    let tables = vec![table_a()];

    let result = backend::init(&mut conn, tables);

    assert!(result.is_ok());
}

#[test]
fn insert_row() {
    let db_name = "insert_row.db";
    let mut conn = open_with_tables(db_name);

    let table_row = table_a_row("Table A", "Some description for Table A", 0);

    let result = query::insert(&mut conn, vec![table_row]);

    assert!(result.is_ok());
}

#[test]
fn drop_table() {
    let db_name = "drop_table.db";
    let mut conn = open_with_tables(db_name);

    let result = query::drop_table(&mut conn, &table_a());

    assert!(result.is_ok());
}

#[test]
fn select() {
    let db_name = "select.db";
    let mut conn = open_with_tables(db_name);
    query::insert(
        &mut conn,
        vec![
            table_a_row("Table A", "Some description for Table A", 0),
            table_a_row("Table A", "Some description for Table A", 1),
            table_a_row("Table B", "Another description", 2),
        ],
    )
    .expect("Failed to insert rows.");

    let columns = vec!["title".to_string(), "description".to_string(), "amount".to_string()];
    let condition = Condition::Eq(
        "description".to_string(),
        njord::condition::Value::Literal("Some description for Table A".to_string()),
    );

    let result = query::select(columns)
        .from(&table_a())
        .where_clause(condition)
        .build(&conn);

    match result {
        Ok(result) => {
            println!("\nSELECT ROWS: ");
            for row in &result {
                for (column, value) in row {
                    match value {
                        Value::Null => println!("\t{}: NULL", column),
                        Value::Integer(i) => println!("\t{}: {}", column, i),
                        Value::Real(bits) => println!("\t{}: {}", column, f64::from_bits(*bits)),
                        Value::Text(s) => println!("\t{}: {}", column, s),
                        Value::Blob(b) => println!("\t{}: <blob of length {}>", column, b.len()),
                    }
                }
                println!("\t---");
            }

            assert_eq!(result.len(), 2);
        }
        Err(error) => panic!("Failed to SELECT: {:?}", error),
    };
}

#[test]
fn select_distinct() {
    let db_name = "select_distinct.db";
    let mut conn = open_with_tables(db_name);
    query::insert(
        &mut conn,
        vec![
            table_a_row("Table A", "Some description for Table A", 0),
            table_a_row("Table A", "Some description for Table A", 0),
            table_a_row("Table B", "Another description", 2),
        ],
    )
    .expect("Failed to insert rows.");

    let columns = vec!["title".to_string(), "description".to_string(), "amount".to_string()];
    let condition = Condition::Eq(
        "description".to_string(),
        njord::condition::Value::Literal("Some description for Table A".to_string()),
    );

    let result = query::select(columns)
        .from(&table_a())
        .where_clause(condition)
        .distinct()
        .build(&conn);

    match result {
        Ok(result) => {
            println!("\nSELECT DISTINCT ROWS: ");
            for row in &result {
                for (column, value) in row {
                    match value {
                        Value::Null => println!("\t{}: NULL", column),
                        Value::Integer(i) => println!("\t{}: {}", column, i),
                        Value::Real(bits) => println!("\t{}: {}", column, f64::from_bits(*bits)),
                        Value::Text(s) => println!("\t{}: {}", column, s),
                        Value::Blob(b) => println!("\t{}: <blob of length {}>", column, b.len()),
                    }
                }
                println!("\t---");
            }

            assert_eq!(result.len(), 1);
        }
        Err(error) => panic!("Failed to SELECT: {:?}", error),
    };
}

#[test]
fn round_trip_insert_select() {
    let mut conn = open_with_tables("round_trip.db");
    query::insert(&mut conn, vec![table_a_row("Other", "Other description", 7)]).unwrap();
    query::insert(&mut conn, vec![table_a_row("Unique", "One of a kind", 42)]).unwrap();

    let columns = vec!["title".to_string(), "description".to_string(), "amount".to_string()];
    let condition = Condition::Eq(
        "description".to_string(),
        njord::condition::Value::Literal("One of a kind".to_string()),
    );
    let rows = query::select(columns)
        .from(&table_a())
        .where_clause(condition)
        .build(&conn)
        .unwrap();

    assert_eq!(rows.len(), 1);
    assert_eq!(rows[0].len(), 3);
    assert_eq!(rows[0][0].0, "title");
    assert!(matches!(&rows[0][0].1, Value::Text(t) if t == "Unique"));
    assert_eq!(rows[0][1].0, "description");
    assert!(matches!(&rows[0][1].1, Value::Text(t) if t == "One of a kind"));
    assert_eq!(rows[0][2].0, "amount");
    assert!(matches!(&rows[0][2].1, Value::Integer(42)));
}

#[test]
fn drop_table_absent_is_error() {
    let mut conn = open_with_tables("drop_absent.db");
    assert!(query::drop_table(&mut conn, &table_a()).is_ok());
    // A second drop finds no table: always an error, never a silent no-op.
    assert!(query::drop_table(&mut conn, &table_a()).is_err());
    let mut fresh = backend::open("drop_absent_fresh.db").unwrap();
    assert!(query::drop_table(&mut fresh, &table_a()).is_err());
}

#[test]
fn select_limit_offset() {
    let mut conn = open_with_tables("limit_offset.db");
    query::insert(
        &mut conn,
        vec![
            table_a_row("A", "d", 1),
            table_a_row("B", "d", 2),
            table_a_row("C", "d", 3),
            table_a_row("D", "d", 4),
        ],
    )
    .unwrap();

    let rows = query::select(vec!["title".to_string()])
        .from(&table_a())
        .offset(1)
        .limit(2)
        .build(&conn)
        .unwrap();
    assert_eq!(rows.len(), 2);
    assert!(matches!(&rows[0][0].1, Value::Text(t) if t == "B"));
    assert!(matches!(&rows[1][0].1, Value::Text(t) if t == "C"));
}

#[test]
fn insert_assigns_auto_increment_key() {
    fn users() -> TableDescriptor {
        TableDescriptor {
            name: "users".to_string(),
            columns: vec![
                Column {
                    name: "id".to_string(),
                    sql_type: SqlType::Integer,
                    primary_key_auto: true,
                    nullable: false,
                },
                Column {
                    name: "username".to_string(),
                    sql_type: SqlType::Text,
                    primary_key_auto: false,
                    nullable: false,
                },
            ],
        }
    }
    let mut conn = backend::open("auto_key.db").unwrap();
    backend::init(&mut conn, vec![users()]).unwrap();
    // An unset auto-increment primary key is carried as Null and assigned
    // by the backend.
    let entity = Entity {
        descriptor: users(),
        values: vec![Value::Null, Value::Text("first".to_string())],
    };
    assert!(query::insert(&mut conn, vec![entity]).is_ok());
    let rows = query::select(vec!["id".to_string(), "username".to_string()])
        .from(&users())
        .build(&conn)
        .unwrap();
    assert_eq!(rows.len(), 1);
    assert!(matches!(rows[0][0].1, Value::Integer(1)));
}
