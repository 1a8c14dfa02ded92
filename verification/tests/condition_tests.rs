// Tests for the condition engine: rendering and validation.

use njord::condition::{render, Condition, ParamStyle, Value};
use njord::error::ValidationError;
use njord::schema::{Column, SqlType, TableDescriptor};

fn table_a() -> TableDescriptor {
    TableDescriptor {
        name: "table_a".to_string(),
        columns: vec![
            Column {
                name: "title".to_string(),
                sql_type: SqlType::Text,
                primary_key_auto: false,
                nullable: false,
            },
            Column {
                name: "description".to_string(),
                sql_type: SqlType::Text,
                primary_key_auto: false,
                nullable: false,
            },
            Column {
                name: "amount".to_string(),
                sql_type: SqlType::Integer,
                primary_key_auto: false,
                nullable: false,
            },
        ],
    }
}

#[test]
fn render_question_placeholders() {
    let c = Condition::Eq(
        "description".to_string(),
        Value::Literal("Some description for Table A".to_string()),
    );
    let (sql, params) = render(&c, &table_a(), ParamStyle::Question).unwrap();
    assert_eq!(sql, "description = ?");
    assert_eq!(params, vec!["Some description for Table A".to_string()]);
}

#[test]
fn render_numbered_placeholders() {
    let c = Condition::And(
        Box::new(Condition::Eq("title".to_string(), Value::Literal("a".to_string()))),
        Box::new(Condition::Or(
            Box::new(Condition::Eq("description".to_string(), Value::Literal("b".to_string()))),
            Box::new(Condition::Not(Box::new(Condition::Eq(
                "amount".to_string(),
                Value::Literal("3".to_string()),
            )))),
        )),
    );
    let (sql, params) = render(&c, &table_a(), ParamStyle::Numbered).unwrap();
    assert_eq!(sql, "(title = :1 AND (description = :2 OR NOT (amount = :3)))");
    assert_eq!(params, vec!["a".to_string(), "b".to_string(), "3".to_string()]);
}

#[test]
fn render_column_to_column() {
    let c = Condition::Eq("title".to_string(), Value::Column("description".to_string()));
    let (sql, params) = render(&c, &table_a(), ParamStyle::Question).unwrap();
    assert_eq!(sql, "title = description");
    assert!(params.is_empty());
}

#[test]
fn sql_text_carries_no_literal() {
    // Two conditions of the same shape with different literal values render
    // to identical SQL text: literals travel only in the parameter list.
    let secret = "s3cr3t-value";
    let c1 = Condition::And(
        Box::new(Condition::Eq("title".to_string(), Value::Literal(secret.to_string()))),
        Box::new(Condition::Eq("amount".to_string(), Value::Literal("1".to_string()))),
    );
    let c2 = Condition::And(
        Box::new(Condition::Eq("title".to_string(), Value::Literal("other".to_string()))),
        Box::new(Condition::Eq("amount".to_string(), Value::Literal("2".to_string()))),
    );
    let (sql1, params1) = render(&c1, &table_a(), ParamStyle::Question).unwrap();
    let (sql2, params2) = render(&c2, &table_a(), ParamStyle::Question).unwrap();
    assert_eq!(sql1, sql2);
    assert!(!sql1.contains(secret));
    assert_eq!(params1, vec![secret.to_string(), "1".to_string()]);
    assert_eq!(params2, vec!["other".to_string(), "2".to_string()]);
}

#[test]
fn render_unknown_column_fails() {
    let c = Condition::Eq("nope".to_string(), Value::Literal("x".to_string()));
    match render(&c, &table_a(), ParamStyle::Question) {
        Err(ValidationError::UnknownColumn(n)) => assert_eq!(n, "nope"),
        other => panic!("expected UnknownColumn, got {:?}", other),
    }
}

#[test]
fn render_reports_first_missing_column() {
    let c = Condition::And(
        Box::new(Condition::Eq("title".to_string(), Value::Literal("a".to_string()))),
        Box::new(Condition::Eq("ghost_col".to_string(), Value::Column("phantom".to_string()))),
    );
    match render(&c, &table_a(), ParamStyle::Question) {
        Err(ValidationError::UnknownColumn(n)) => assert_eq!(n, "ghost_col"),
        other => panic!("expected UnknownColumn, got {:?}", other),
    }
}
