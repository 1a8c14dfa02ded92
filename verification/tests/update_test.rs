// Tests for the UPDATE builder.

use njord::backend;
use njord::condition::{Condition, Value};
use njord::query::{insert, select, update, Entity};
use njord::schema::{Column, SqlType, TableDescriptor};

fn users_table() -> TableDescriptor {
    TableDescriptor {
        name: "users".to_string(),
        columns: vec![
            Column {
                name: "id".to_string(),
                sql_type: SqlType::Integer,
                primary_key_auto: true,
                nullable: false,
            },
            Column {
                name: "username".to_string(),
                sql_type: SqlType::Text,
                primary_key_auto: false,
                nullable: false,
            },
            Column {
                name: "email".to_string(),
                sql_type: SqlType::Text,
                primary_key_auto: false,
                nullable: false,
            },
            Column {
                name: "address".to_string(),
                sql_type: SqlType::Text,
                primary_key_auto: false,
                nullable: false,
            },
        ],
    }
}

fn user(username: &str, email: &str, address: &str) -> Entity {
    Entity {
        descriptor: users_table(),
        values: vec![
            njord::value::Value::Null,
            njord::value::Value::Text(username.to_string()),
            njord::value::Value::Text(email.to_string()),
            njord::value::Value::Text(address.to_string()),
        ],
    }
}

fn user_default() -> Entity {
    user("", "", "")
}

#[test]
fn update_row() {
    insert_row();

    let connection_string = "//localhost:1521/FREEPDB1";
    let mut conn = backend::open(connection_string).unwrap();
    backend::init(&mut conn, vec![users_table()]).unwrap();
    insert(
        &mut conn,
        vec![user("chasewillden2", "chase.willden@example.com", "Some Random Address 1")],
    )
    .unwrap();

    let columns = vec!["username".to_string()];
    let condition = Condition::Eq(
        "username".to_string(),
        Value::Literal("chasewillden2".to_string()),
    );

    let result = update(user_default())
        .set(columns)
        .where_clause(condition)
        .limit(4)
        .offset(0)
        .build(&mut conn);
    assert!(result.is_ok());
}

/// Helper: inserting a row to be updated succeeds on its own connection.
fn insert_row() {
    let connection_string = "//localhost:1521/FREEPDB1";
    let mut conn = backend::open(connection_string).unwrap();
    backend::init(&mut conn, vec![users_table()]).unwrap();

    let table_row = user("chasewillden2", "chase.willden@example.com", "Some Random Address 1");

    let result = insert(&mut conn, vec![table_row]);
    assert!(result.is_ok());
}

#[test]
fn update_affects_only_matching_rows_up_to_limit() {
    let mut conn = backend::open("update_limit.db").unwrap();
    backend::init(&mut conn, vec![users_table()]).unwrap();
    insert(
        &mut conn,
        vec![
            user("dup", "a@example.com", "addr a"),
            user("keep", "b@example.com", "addr b"),
            user("dup", "c@example.com", "addr c"),
            user("dup", "d@example.com", "addr d"),
        ],
    )
    .unwrap();

    let renamed = user("renamed", "", "");
    let result = update(renamed)
        .set(vec!["username".to_string()])
        .where_clause(Condition::Eq(
            "username".to_string(),
            Value::Literal("dup".to_string()),
        ))
        .limit(2)
        .offset(0)
        .build(&mut conn);
    // Exactly two of the three matching rows are rewritten: never more
    // than the limit, and no non-matching row.
    assert_eq!(result.unwrap(), 2);

    let rows = select(vec!["username".to_string()])
        .from(&users_table())
        .build(&conn)
        .unwrap();
    let names: Vec<String> = rows
        .iter()
        .map(|r| match &r[0].1 {
            njord::value::Value::Text(t) => t.clone(),
            _ => panic!("expected text"),
        })
        .collect();
    assert_eq!(names, vec!["renamed", "keep", "renamed", "dup"]);
}

#[test]
fn update_without_where_rewrites_every_row() {
    let mut conn = backend::open("update_all.db").unwrap();
    backend::init(&mut conn, vec![users_table()]).unwrap();
    insert(
        &mut conn,
        vec![user("one", "", ""), user("two", "", "")],
    )
    .unwrap();

    let result = update(user("all", "", ""))
        .set(vec!["username".to_string()])
        .build(&mut conn);
    assert_eq!(result.unwrap(), 2);
}
