use treedb::query::{handle_meta_command, prepare_statement, MetaCommand, StatementType};
use treedb::row::Row;

#[test]
fn parse_select_without_id() {
    let result = prepare_statement("select");
    assert!(result.is_ok());

    let statement = result.unwrap();
    assert_eq!(statement.statement_type, StatementType::Select);
    assert_eq!(statement.row, None);
}

#[test]
fn parse_select_with_id() {
    let result = prepare_statement("select 1");
    assert!(result.is_ok());

    let statement = result.unwrap();
    assert_eq!(statement.statement_type, StatementType::Select);
    assert_eq!(statement.row, Some(Row::create(1, "", "")));
}

#[test]
fn parse_delete_with_id() {
    let result = prepare_statement("delete 1");
    assert!(result.is_ok());

    let statement = result.unwrap();
    assert_eq!(statement.statement_type, StatementType::Delete);
    assert_eq!(statement.row, Some(Row::create(1, "", "")));
}

#[test]
fn error_when_parse_action_with_non_u32_id() {
    let result = prepare_statement("select apple");
    assert!(result.is_err());

    let message = result.unwrap_err();
    assert_eq!(message, "invalid id provided");

    let result = prepare_statement("delete apple");
    assert!(result.is_err());

    let message = result.unwrap_err();
    assert_eq!(message, "invalid id provided");
}

#[test]
fn parse_insert_statement() {
    let result = prepare_statement("insert 7 apple joe@apple.com");
    assert!(result.is_ok());
    let statement = result.unwrap();
    assert_eq!(statement.statement_type, StatementType::Insert);
    let row = statement.row.unwrap();
    assert_eq!(row, Row::create(7, "apple", "joe@apple.com"));
    assert_eq!(row.id, 7);
    assert_eq!(row.username.len(), 32);
    assert_eq!(row.email.len(), 255);
    assert_eq!(&row.username[..5], b"apple");
    assert_eq!(row.username[5], 0);
}

#[test]
fn reject_malformed_insert_statements() {
    let r = prepare_statement("insert");
    assert_eq!(r.unwrap_err(), "invalid insert statement");

    let r = prepare_statement("insert 1 two");
    assert_eq!(r.unwrap_err(), "invalid insert statement");

    let r = prepare_statement("insert 1 two three four");
    assert_eq!(r.unwrap_err(), "invalid insert statement");

    let r = prepare_statement("insert one two three");
    assert_eq!(r.unwrap_err(), "invalid id");
}

#[test]
fn id_must_fit_a_u32() {
    let statement = prepare_statement("select 4294967295").unwrap();
    assert_eq!(statement.row.unwrap().id, 4294967295);

    let r = prepare_statement("select 4294967296");
    assert_eq!(r.unwrap_err(), "invalid id provided");
}

#[test]
fn recognize_meta_commands() {
    assert_eq!(handle_meta_command(".exit"), MetaCommand::Exit);
    assert_eq!(handle_meta_command(".tree"), MetaCommand::PrintTree);
    assert_eq!(handle_meta_command(".nope"), MetaCommand::Unrecognized);
}
