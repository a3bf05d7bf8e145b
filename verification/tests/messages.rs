use panfix::message::decimal;
use panfix::{ParseError, Position};

#[test]
fn numbers_are_written_in_decimal() {
    assert_eq!(decimal(0), "0");
    assert_eq!(decimal(7), "7");
    assert_eq!(decimal(10), "10");
    assert_eq!(decimal(1234567890), "1234567890");
    assert_eq!(decimal(usize::MAX), usize::MAX.to_string());
}

#[test]
fn lex_error_names_the_characters_and_the_place() {
    let error = ParseError::LexError {
        lexeme: "%".to_owned(),
        pos: Position { line: 1, column: 5, offset: 4 },
    };
    assert_eq!(
        error.message(),
        "Lexing failed. It did not recognize the characters '%'. Line 1 (1:5)"
    );
}

#[test]
fn extra_separator_names_the_separator_and_the_place() {
    let error = ParseError::ExtraSeparator {
        separator: "then".to_owned(),
        pos: Position { line: 12, column: 340, offset: 999 },
    };
    assert_eq!(
        error.message(),
        "Parsing failed. It did not expect to find 'then' on its own. Line 12 (12:340)"
    );
}

#[test]
fn missing_separator_names_separator_operator_and_place() {
    let error = ParseError::MissingSeparator {
        op_name: "if".to_owned(),
        separator: "else".to_owned(),
        pos: Position { line: 2, column: 1, offset: 30 },
    };
    assert_eq!(
        error.message(),
        "Parsing failed. It expected to find 'else' as part of if, but could not. Line 2 (2:1)"
    );
}
