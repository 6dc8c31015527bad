//! Parsing one input line: statements and meta-commands.

use leafdb::statement::{
    do_meta_command, parse_i32, prepare_statement, tokenize, MetaCommand, ParseError, Statement,
};

#[test]
fn insert_line_parses_into_a_row() {
    match prepare_statement(b"insert 1 alice a@x") {
        Ok(Statement::Insert(row)) => {
            assert_eq!(row.id, 1);
            assert_eq!(row.username, b"alice".to_vec());
            assert_eq!(row.email, b"a@x".to_vec());
        },
        _ => panic!("expected an insert"),
    }
}

#[test]
fn select_line_parses() {
    assert!(matches!(prepare_statement(b"select"), Ok(Statement::Select)));
}

#[test]
fn unknown_keyword_is_unrecognized() {
    assert!(matches!(
        prepare_statement(b"delete 1"),
        Err(ParseError::Unrecognized)
    ));
}

#[test]
fn missing_arguments_are_invalid_syntax() {
    assert!(matches!(
        prepare_statement(b"insert 1 alice"),
        Err(ParseError::InvalidSyntax)
    ));
    assert!(matches!(
        prepare_statement(b"insert"),
        Err(ParseError::InvalidSyntax)
    ));
}

#[test]
fn non_numeric_id_is_invalid_syntax() {
    assert!(matches!(
        prepare_statement(b"insert abc alice a@x"),
        Err(ParseError::InvalidSyntax)
    ));
}

#[test]
fn id_zero_succeeds() {
    match prepare_statement(b"insert 0 a a@x") {
        Ok(Statement::Insert(row)) => assert_eq!(row.id, 0),
        _ => panic!("expected an insert"),
    }
}

#[test]
fn negative_id_is_rejected() {
    assert!(matches!(
        prepare_statement(b"insert -1 a a@x"),
        Err(ParseError::NegativeID)
    ));
}

#[test]
fn id_past_signed_range_is_invalid_syntax() {
    // 2^31 does not fit a signed 32-bit parse
    assert!(matches!(
        prepare_statement(b"insert 2147483648 a a@x"),
        Err(ParseError::InvalidSyntax)
    ));
    // 2^31 - 1 still does
    match prepare_statement(b"insert 2147483647 a a@x") {
        Ok(Statement::Insert(row)) => assert_eq!(row.id, 2147483647),
        _ => panic!("expected an insert"),
    }
}

#[test]
fn username_at_limit_succeeds_one_past_fails() {
    let at_limit = format!("insert 1 {} a@x", "u".repeat(32));
    match prepare_statement(at_limit.as_bytes()) {
        Ok(Statement::Insert(row)) => assert_eq!(row.username.len(), 32),
        _ => panic!("expected an insert"),
    }
    let over = format!("insert 1 {} a@x", "u".repeat(33));
    assert!(matches!(
        prepare_statement(over.as_bytes()),
        Err(ParseError::StringTooLong)
    ));
}

#[test]
fn email_at_limit_succeeds_one_past_fails() {
    let at_limit = format!("insert 1 a {}", "e".repeat(255));
    match prepare_statement(at_limit.as_bytes()) {
        Ok(Statement::Insert(row)) => assert_eq!(row.email.len(), 255),
        _ => panic!("expected an insert"),
    }
    let over = format!("insert 1 a {}", "e".repeat(256));
    assert!(matches!(
        prepare_statement(over.as_bytes()),
        Err(ParseError::StringTooLong)
    ));
}

#[test]
fn thirty_three_byte_username_is_too_long() {
    assert!(matches!(
        prepare_statement(b"insert 1 aaaaaaaaaaaaaaaaaaaaaaaaaaaaaaaaa b@x"),
        Err(ParseError::StringTooLong)
    ));
}

#[test]
fn parse_i32_handles_signs_and_range() {
    assert_eq!(parse_i32(b"0"), Some(0));
    assert_eq!(parse_i32(b"42"), Some(42));
    assert_eq!(parse_i32(b"+7"), Some(7));
    assert_eq!(parse_i32(b"-1"), Some(-1));
    assert_eq!(parse_i32(b"2147483647"), Some(i32::MAX));
    assert_eq!(parse_i32(b"-2147483648"), Some(i32::MIN));
    assert_eq!(parse_i32(b"2147483648"), None);
    assert_eq!(parse_i32(b"-2147483649"), None);
    assert_eq!(parse_i32(b""), None);
    assert_eq!(parse_i32(b"+"), None);
    assert_eq!(parse_i32(b"12a"), None);
    assert_eq!(parse_i32(b"99999999999999999999"), None);
    assert_eq!(parse_i32(b"007"), Some(7));
}

#[test]
fn tokenizer_splits_on_ascii_whitespace() {
    let toks = tokenize(b"  insert  1\talice  a@x ");
    let toks: Vec<&[u8]> = toks.iter().map(|t| t.as_slice()).collect();
    assert_eq!(toks, vec![&b"insert"[..], b"1", b"alice", b"a@x"]);
    assert_eq!(tokenize(b"").len(), 0);
    assert_eq!(tokenize(b"   ").len(), 0);
}

#[test]
fn meta_commands_parse() {
    assert_eq!(do_meta_command(b".exit"), Ok(MetaCommand::Exit));
    assert_eq!(do_meta_command(b".constants"), Ok(MetaCommand::PrintConstants));
    assert_eq!(do_meta_command(b".btree"), Ok(MetaCommand::PrintTree));
    assert_eq!(do_meta_command(b".quit"), Err(ParseError::Unrecognized));
}

#[test]
fn pinned_constants_match_the_format() {
    assert_eq!(leafdb::PAGE_SIZE, 4096);
    assert_eq!(leafdb::ROW_SIZE, 293);
    assert_eq!(leafdb::CELL_SIZE, 297);
    assert_eq!(leafdb::COMMON_NODE_HEADER_SIZE, 5);
    assert_eq!(leafdb::LEAF_NODE_HEADER_SIZE, 9);
    assert_eq!(leafdb::LEAF_NODE_SPACE_FOR_CELLS, 4087);
    assert_eq!(leafdb::LEAF_NODE_MAX_CELLS, 13);
    assert_eq!(leafdb::TABLE_MAX_PAGES, 100);
}
