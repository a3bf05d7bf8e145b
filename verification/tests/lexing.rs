use panfix::lexer::{advance, best_match};
use panfix::{PatternKind, Position, TokenPattern};

fn pattern(kind: PatternKind, text: &str) -> TokenPattern {
    TokenPattern { kind, text: text.to_owned(), name: text.to_owned() }
}

fn patterns() -> Vec<TokenPattern> {
    vec![
        pattern(PatternKind::Reserved, ""),
        pattern(PatternKind::Reserved, ""),
        pattern(PatternKind::Reserved, ""),
        pattern(PatternKind::Regex, "[a-z]+"),
        pattern(PatternKind::Constant, "if"),
        pattern(PatternKind::Constant, "iff"),
        pattern(PatternKind::Regex, "[a-z0-9]+"),
    ]
}

#[test]
fn longest_match_is_chosen() {
    assert_eq!(best_match(&patterns(), &vec![0, 0, 0, 3, 2, 3, 5]), (6, 5));
    assert_eq!(best_match(&patterns(), &vec![0, 0, 0, 4, 2, 3, 0]), (3, 4));
}

#[test]
fn literal_is_preferred_to_a_regular_expression_of_equal_length() {
    assert_eq!(best_match(&patterns(), &vec![0, 0, 0, 2, 2, 0, 2]), (4, 2));
    assert_eq!(best_match(&patterns(), &vec![0, 0, 0, 3, 2, 3, 3]), (5, 3));
}

#[test]
fn earlier_token_is_preferred_among_equals() {
    assert_eq!(best_match(&patterns(), &vec![0, 0, 0, 2, 0, 0, 2]), (3, 2));
}

#[test]
fn nothing_matching_is_unrecognised_input() {
    assert_eq!(best_match(&patterns(), &vec![0, 0, 0, 0, 0, 0, 0]), (0, 0));
    assert_eq!(best_match(&Vec::new(), &Vec::new()), (0, 0));
}

#[test]
fn places_count_lines_and_columns() {
    let start = Position::start();
    assert_eq!(advance(start, b""), start);
    assert_eq!(advance(start, b"abc"), Position { line: 1, column: 4, offset: 3 });
    assert_eq!(advance(start, b"ab\ncd\ne"), Position { line: 3, column: 2, offset: 7 });
    assert_eq!(
        advance(Position { line: 4, column: 9, offset: 100 }, b"\n"),
        Position { line: 5, column: 1, offset: 101 }
    );
}
