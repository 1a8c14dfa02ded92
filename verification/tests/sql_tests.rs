// Tests for statement-level SQL rendering.

use njord::condition::{Condition, ParamStyle, Value};
use njord::query::{self, drop_table_sql, insert_sql};
use njord::schema::{Column, SqlType, TableDescriptor};

fn table_a() -> TableDescriptor {
    TableDescriptor {
        name: "table_a".to_string(),
        columns: vec![
            Column {
                name: "title".to_string(),
                sql_type: SqlType::Text,
                primary_key_auto: false,
                nullable: false,
            },
            Column {
                name: "description".to_string(),
                sql_type: SqlType::Text,
                primary_key_auto: false,
                nullable: false,
            },
            Column {
                name: "amount".to_string(),
                sql_type: SqlType::Integer,
                primary_key_auto: false,
                nullable: false,
            },
        ],
    }
}

#[test]
fn select_statement_renders_fully() {
    let q = query::select(vec!["title".to_string(), "description".to_string()])
        .from(&table_a())
        .where_clause(Condition::Eq(
            "description".to_string(),
            Value::Literal("Some description for Table A".to_string()),
        ))
        .distinct()
        .limit(2)
        .offset(1);
    let (sql, params) = q.to_sql(ParamStyle::Question).unwrap();
    assert_eq!(
        sql,
        "SELECT DISTINCT title, description FROM table_a WHERE description = ? LIMIT 2 OFFSET 1"
    );
    assert_eq!(params, vec!["Some description for Table A".to_string()]);
}

#[test]
fn select_statement_minimal() {
    let q = query::select(vec!["title".to_string()]).from(&table_a());
    let (sql, params) = q.to_sql(ParamStyle::Question).unwrap();
    assert_eq!(sql, "SELECT title FROM table_a");
    assert!(params.is_empty());
}

#[test]
fn select_statement_without_from_fails() {
    let q = query::select(vec!["title".to_string()]);
    assert!(q.to_sql(ParamStyle::Question).is_err());
}

#[test]
fn insert_statement_renders_placeholders() {
    assert_eq!(
        insert_sql(&table_a(), ParamStyle::Question),
        "INSERT INTO table_a (title, description, amount) VALUES (?, ?, ?)"
    );
    assert_eq!(
        insert_sql(&table_a(), ParamStyle::Numbered),
        "INSERT INTO table_a (title, description, amount) VALUES (:1, :2, :3)"
    );
}

#[test]
fn drop_statement_renders() {
    assert_eq!(drop_table_sql(&table_a()), "DROP TABLE table_a");
}

#[test]
fn update_statement_renders_fully() {
    let entity = njord::query::Entity {
        descriptor: table_a(),
        values: vec![
            njord::value::Value::Text("New title".to_string()),
            njord::value::Value::Text("New description".to_string()),
            njord::value::Value::Integer(9),
        ],
    };
    let q = njord::query::update(entity)
        .set(vec!["title".to_string(), "description".to_string()])
        .where_clause(Condition::Eq(
            "amount".to_string(),
            Value::Literal("9".to_string()),
        ))
        .limit(4)
        .offset(0);
    let (sql, params) = q.to_sql(ParamStyle::Numbered).unwrap();
    // The SET values take :1 and :2; the condition's literal continues at :3.
    assert_eq!(
        sql,
        "UPDATE table_a SET title = :1, description = :2 WHERE amount = :3 LIMIT 4 OFFSET 0"
    );
    assert_eq!(params, vec!["9".to_string()]);
}

#[test]
fn update_statement_without_set_fails() {
    let entity = njord::query::Entity { descriptor: table_a(), values: vec![] };
    assert!(njord::query::update(entity).to_sql(ParamStyle::Question).is_err());
}
