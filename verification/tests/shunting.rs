use panfix::simple_shunter::Shunter;
use panfix::{shunt, Lexeme, Position, Prec, Token, TOKEN_BLANK, TOKEN_ERROR, TOKEN_JUXTAPOSE};

const TOKEN_ID: Token = 3;
const TOKEN_TIMES: Token = 4;
const TOKEN_PLUS: Token = 5;
const TOKEN_NEG: Token = 6;
const TOKEN_MINUS: Token = 7;
const TOKEN_BANG: Token = 8;
const TOKEN_OPEN: Token = 9;
const TOKEN_CLOSE: Token = 10;
const NUM_TOKENS: usize = 11;

fn lex(src: &str) -> Vec<Lexeme<'_>> {
    let mut lexemes = vec![];
    for i in 0..src.len() {
        let ch = src[i..i + 1].chars().next().unwrap();
        if ch == ' ' {
            continue;
        }
        let token = match ch {
            '_' => TOKEN_BLANK,
            '.' => TOKEN_JUXTAPOSE,
            'a'..='z' => TOKEN_ID,
            '*' => TOKEN_TIMES,
            '+' => TOKEN_PLUS,
            '~' => TOKEN_NEG,
            '-' => TOKEN_MINUS,
            '!' => TOKEN_BANG,
            '(' => TOKEN_OPEN,
            ')' => TOKEN_CLOSE,
            _ => TOKEN_ERROR,
        };
        let pos = Position::start();
        lexemes.push(Lexeme::new(token, &src[i..i + 1], pos, pos));
    }
    lexemes
}

fn show_stream(stream: &[Lexeme<'_>]) -> String {
    stream
        .iter()
        .map(|lex| if lex.lexeme == "" { "_" } else { lex.lexeme })
        .collect::<Vec<_>>()
        .join(" ")
}

fn table() -> Vec<(Prec, Prec)> {
    let mut prec_table = Vec::new();
    for _ in 0..NUM_TOKENS {
        prec_table.push((0, 0));
    }
    prec_table[TOKEN_ERROR] = (0, 0);
    prec_table[TOKEN_BLANK] = (0, 0);
    prec_table[TOKEN_JUXTAPOSE] = (10, 10);
    prec_table[TOKEN_ID] = (0, 0);
    prec_table[TOKEN_BANG] = (50, 0);
    prec_table[TOKEN_TIMES] = (60, 60);
    prec_table[TOKEN_PLUS] = (100, 99);
    prec_table[TOKEN_MINUS] = (100, 99);
    prec_table[TOKEN_NEG] = (0, 80);
    prec_table[TOKEN_OPEN] = (0, 1000);
    prec_table[TOKEN_CLOSE] = (1000, 0);
    prec_table
}

#[test]
fn test_shunting() {
    let prec_table = table();

    let src = "_";
    let lexemes = shunt(&prec_table, lex(src));
    assert_eq!(show_stream(&lexemes), "_");

    let src = "_+_";
    let lexemes = shunt(&prec_table, lex(src));
    assert_eq!(show_stream(&lexemes), "_ _ +");

    let src = "1-2+3*4*5!-~6";
    let lexemes = shunt(&prec_table, lex(src));
    assert_eq!(show_stream(&lexemes), "1 2 - 3 4 5 ! * * + 6 ~ -");

    let src = "(~_)";
    let lexemes = shunt(&prec_table, lex(src));
    assert_eq!(show_stream(&lexemes), "_ ~ ) (");

    let src = "%";
    let lexemes = shunt(&prec_table, lex(src));
    assert_eq!(show_stream(&lexemes), "%");

    let src = "1 + %";
    let lexemes = shunt(&prec_table, lex(src));
    assert_eq!(show_stream(&lexemes), "1 % +");
}

#[test]
fn shunting_nothing_gives_nothing() {
    let prec_table = table();
    let lexemes = shunt(&prec_table, Vec::new());
    assert!(lexemes.is_empty());
}

#[test]
fn shunting_keeps_every_lexeme() {
    let prec_table = table();
    let input = lex("a*(b+c)!-~d");
    let count = input.len();
    let output = shunt(&prec_table, input);
    assert_eq!(output.len(), count);
    let mut texts: Vec<&str> = output.iter().map(|lex| lex.lexeme).collect();
    texts.sort();
    let mut wanted: Vec<&str> = vec!["a", "*", "(", "b", "+", "c", ")", "!", "-", "~", "d"];
    wanted.sort();
    assert_eq!(texts, wanted);
}

#[test]
fn left_associative_operator_groups_left() {
    let prec_table = table();
    let output = shunt(&prec_table, lex("a + b + c"));
    assert_eq!(show_stream(&output), "a b + c +");
}

#[test]
fn right_associative_operator_groups_right() {
    let mut prec_table = table();
    prec_table[TOKEN_PLUS] = (99, 100);
    let output = shunt(&prec_table, lex("a + b + c"));
    assert_eq!(show_stream(&output), "a b c + +");
}

#[test]
fn tighter_operator_binds_first() {
    let prec_table = table();
    let output = shunt(&prec_table, lex("a + b * c"));
    assert_eq!(show_stream(&output), "a b c * +");
    let output = shunt(&prec_table, lex("a * b + c"));
    assert_eq!(show_stream(&output), "a b * c +");
}

#[test]
fn follower_at_the_bottom_of_the_stack_is_popped_once() {
    let mut prec_table = table();
    prec_table[TOKEN_CLOSE] = (65535, 0);
    let output = shunt(&prec_table, lex(") + a"));
    assert_eq!(show_stream(&output), ") a +");
}

#[test]
fn top_rprec_is_a_wall_on_an_empty_stack() {
    let prec_table = table();
    let mut shunter = Shunter::new(&prec_table, lex("a + b"));
    assert_eq!(shunter.top_rprec(), 65535);
    assert_eq!(shunter.next().unwrap().lexeme, "a");
    assert_eq!(shunter.top_rprec(), 65535);
    assert_eq!(shunter.next().unwrap().lexeme, "b");
    assert_eq!(shunter.top_rprec(), 99);
    assert_eq!(shunter.next().unwrap().lexeme, "+");
    assert!(shunter.next().is_none());
    assert!(shunter.next().is_none());
}

#[test]
fn symmetric_precedence_shifts_its_own_operator() {
    let prec_table = table();
    let output = shunt(&prec_table, lex("1-2+3*4*5"));
    assert_eq!(show_stream(&output), "1 2 - 3 4 5 * * +");
}
