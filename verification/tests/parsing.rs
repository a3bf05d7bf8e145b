use panfix::lexer::{advance, best_match};
use panfix::{
    read_postfix, Assoc, Fixity, Grammar, Lexeme, ParseError, Parser, Pattern, PatternKind,
    Position, Visitor, TOKEN_ERROR,
};
use regex::Regex;

fn pattern(fixity: Fixity, first: &str, followers: &[&str]) -> Pattern {
    Pattern {
        fixity,
        first_token: first.to_owned(),
        followers: followers.iter().map(|s| (*s).to_owned()).collect(),
    }
}

fn anchored(pattern: &str) -> Regex {
    Regex::new(&format!("^(?:{})", pattern)).unwrap()
}

fn lex<'s>(parser: &Parser, source: &'s str) -> Vec<Lexeme<'s>> {
    let whitespace = anchored(parser.whitespace());
    let matchers: Vec<Option<Regex>> = parser
        .token_patterns()
        .iter()
        .map(|pattern| match pattern.kind {
            PatternKind::Reserved => None,
            PatternKind::Constant => Some(anchored(&regex::escape(&pattern.text))),
            PatternKind::Regex => Some(anchored(&pattern.text)),
        })
        .collect();
    let mut lexemes = Vec::new();
    let mut at = Position::start();
    loop {
        if let Some(skipped) = whitespace.find(&source[at.offset..]) {
            at = advance(at, skipped.as_str().as_bytes());
        }
        let rest = &source[at.offset..];
        let first = match rest.chars().next() {
            Some(first) => first,
            None => return lexemes,
        };
        let lengths: Vec<usize> = matchers
            .iter()
            .map(|matcher| match matcher {
                Some(regex) => regex.find(rest).map_or(0, |found| found.end()),
                None => 0,
            })
            .collect();
        let (token, matched) = best_match(parser.token_patterns(), &lengths);
        let length = if matched == 0 { first.len_utf8() } else { matched };
        let end = advance(at, rest[..length].as_bytes());
        lexemes.push(Lexeme::new(token, &rest[..length], at, end));
        at = end;
    }
}

fn show(visitor: Visitor<'_>) -> String {
    let children = visitor.children().collect();
    let label = if visitor.text().is_empty() { visitor.name() } else { visitor.text() };
    if children.is_empty() {
        label.to_owned()
    } else {
        let mut shown = format!("({}", label);
        for child in children {
            shown.push(' ');
            shown.push_str(&show(child));
        }
        shown.push(')');
        shown
    }
}

fn parse_and_show(parser: &Parser, source: &str) -> Result<Vec<String>, ParseError> {
    let parsed = parser.parse(source, lex(parser, source))?;
    assert_eq!(parsed.source(), source);
    Ok(parsed.groups().collect().into_iter().map(show).collect())
}

fn postfix_names(parser: &Parser, source: &str) -> String {
    let parsed = parser.parse(source, lex(parser, source)).unwrap();
    let groups = parsed.groups().collect();
    assert_eq!(groups.len(), 1);
    let mut names = Vec::new();
    collect_postfix(groups[0], &mut names);
    names.join(" ")
}

fn collect_postfix(visitor: Visitor<'_>, names: &mut Vec<String>) {
    for child in visitor.children().collect() {
        collect_postfix(child, names);
    }
    let label = if visitor.text().is_empty() { visitor.name() } else { visitor.text() };
    names.push(label.to_owned());
}

fn arithmetic() -> Parser {
    let mut grammar = Grammar::new(" *", Ok(())).unwrap();
    grammar.regex("number", "[0-9]+", Ok(())).unwrap();
    grammar.regex("id", "[a-z]+", Ok(())).unwrap();
    grammar.lgroup();
    grammar.op("times", pattern(Fixity::Infix, "*", &[]), Ok(())).unwrap();
    grammar.lgroup();
    grammar.op("plus", pattern(Fixity::Infix, "+", &[]), Ok(())).unwrap();
    grammar.op("minus", pattern(Fixity::Infix, "-", &[]), Ok(())).unwrap();
    grammar.rgroup();
    grammar.op("arrow", pattern(Fixity::Infix, "->", &[]), Ok(())).unwrap();
    grammar.finish()
}

#[test]
fn single_atom_is_a_single_node() {
    let parser = arithmetic();
    let source = "  42 ";
    let parsed = parser.parse(source, lex(&parser, source)).unwrap();
    let groups = parsed.groups().collect();
    assert_eq!(groups.len(), 1);
    let node = groups[0];
    assert_eq!(node.name(), "number");
    assert_eq!(node.arity(), 0);
    assert_eq!(node.fixity(), Fixity::Nilfix);
    assert_eq!(node.span(), (2, 4));
    assert_eq!(node.text(), "42");
    assert_eq!(node.children().len(), 0);
}

#[test]
fn left_associative_infix_parses_to_the_left() {
    let parser = arithmetic();
    assert_eq!(parse_and_show(&parser, "1 - 2 - 3").unwrap(), vec!["(- (- 1 2) 3)"]);
    assert_eq!(parse_and_show(&parser, "1 - 2 + 3").unwrap(), vec!["(+ (- 1 2) 3)"]);
}

#[test]
fn right_associative_infix_parses_to_the_right() {
    let parser = arithmetic();
    assert_eq!(parse_and_show(&parser, "a -> b -> c").unwrap(), vec!["(-> a (-> b c))"]);
}

#[test]
fn tighter_operator_is_the_inner_node() {
    let parser = arithmetic();
    assert_eq!(parse_and_show(&parser, "a + b * c").unwrap(), vec!["(+ a (* b c))"]);
    assert_eq!(parse_and_show(&parser, "a * b + c").unwrap(), vec!["(+ (* a b) c)"]);
    assert_eq!(parse_and_show(&parser, "a -> b + c").unwrap(), vec!["(-> a (+ b c))"]);
}

#[test]
fn later_group_binds_looser() {
    let mut grammar = Grammar::new(" *", Ok(())).unwrap();
    grammar.regex("number", "[0-9]+", Ok(())).unwrap();
    grammar.lgroup();
    grammar.op("plus", pattern(Fixity::Infix, "+", &[]), Ok(())).unwrap();
    grammar.op("minus", pattern(Fixity::Infix, "-", &[]), Ok(())).unwrap();
    grammar.lgroup();
    grammar.op("times", pattern(Fixity::Infix, "*", &[]), Ok(())).unwrap();
    let parser = grammar.finish();
    assert_eq!(parser.prec_table()[4], (10, 9));
    assert_eq!(parser.prec_table()[5], (10, 9));
    assert_eq!(parser.prec_table()[6], (20, 19));
    assert_eq!(postfix_names(&parser, "1-2+3*4*5"), "1 2 - 3 + 4 * 5 *");
}

#[test]
fn earlier_group_binds_tighter() {
    let mut grammar = Grammar::new(" *", Ok(())).unwrap();
    grammar.regex("number", "[0-9]+", Ok(())).unwrap();
    grammar.rgroup();
    grammar.op("times", pattern(Fixity::Infix, "*", &[]), Ok(())).unwrap();
    grammar.lgroup();
    grammar.op("plus", pattern(Fixity::Infix, "+", &[]), Ok(())).unwrap();
    grammar.op("minus", pattern(Fixity::Infix, "-", &[]), Ok(())).unwrap();
    let parser = grammar.finish();
    assert_eq!(postfix_names(&parser, "1-2+3*4*5"), "1 2 - 3 4 5 * * +");
}

#[test]
fn brackets_form_one_node_round_a_prefix() {
    let mut grammar = Grammar::new(" *", Ok(())).unwrap();
    grammar.regex("id", "[a-z]+", Ok(())).unwrap();
    grammar.add_raw_op("not", Assoc::Right, 80, pattern(Fixity::Prefix, "~", &[]), Ok(())).unwrap();
    grammar.add_raw_op("bang", Assoc::Left, 50, pattern(Fixity::Suffix, "!", &[]), Ok(())).unwrap();
    grammar.op("parens", pattern(Fixity::Nilfix, "(", &[")"]), Ok(())).unwrap();
    let parser = grammar.finish();
    assert_eq!(postfix_names(&parser, "(~a)"), "a ~ (");
    let source = "(~a)";
    let parsed = parser.parse(source, lex(&parser, source)).unwrap();
    let parens = parsed.groups().collect()[0];
    assert_eq!(parens.name(), "parens");
    assert_eq!(parens.arity(), 1);
    assert_eq!(parens.children().len(), 1);
    assert_eq!(parse_and_show(&parser, "(~a!)").unwrap(), vec!["(( (~ (! a)))"]);
}

#[test]
fn empty_input_is_a_blank() {
    let parser = arithmetic();
    let parsed = parser.parse("", Vec::new()).unwrap();
    let groups = parsed.groups().collect();
    assert_eq!(groups.len(), 1);
    assert_eq!(groups[0].name(), "$Blank");
    assert_eq!(groups[0].arity(), 0);
    assert_eq!(groups[0].span(), (0, 0));
    assert_eq!(groups[0].text(), "");
}

#[test]
fn operator_alone_gets_blanks_on_both_sides() {
    let parser = arithmetic();
    assert_eq!(postfix_names(&parser, "+"), "$Blank $Blank +");
    assert_eq!(parse_and_show(&parser, "+").unwrap(), vec!["(+ $Blank $Blank)"]);
    assert_eq!(parse_and_show(&parser, "1 +").unwrap(), vec!["(+ 1 $Blank)"]);
    assert_eq!(parse_and_show(&parser, "* 2").unwrap(), vec!["(* $Blank 2)"]);
    assert_eq!(parse_and_show(&parser, "1 + * 2").unwrap(), vec!["(+ 1 (* $Blank 2))"]);
}

#[test]
fn adjacent_atoms_are_juxtaposed_where_installed() {
    let mut grammar = Grammar::new(" *", Ok(())).unwrap();
    grammar.regex("id", "[a-z]+", Ok(())).unwrap();
    grammar.lgroup();
    grammar.juxtapose().unwrap();
    grammar.lgroup();
    grammar.op("plus", pattern(Fixity::Infix, "+", &[]), Ok(())).unwrap();
    let parser = grammar.finish();
    assert_eq!(parse_and_show(&parser, "a b").unwrap(), vec!["($Juxtapose a b)"]);
    assert_eq!(
        parse_and_show(&parser, "a b c").unwrap(),
        vec!["($Juxtapose ($Juxtapose a b) c)"]
    );
    assert_eq!(
        parse_and_show(&parser, "a b + c").unwrap(),
        vec!["(+ ($Juxtapose a b) c)"]
    );
}

#[test]
fn adjacent_atoms_are_an_error_where_not_installed() {
    let parser = arithmetic();
    match parse_and_show(&parser, "a bc") {
        Err(ParseError::ExtraSeparator { separator, pos }) => {
            assert_eq!(separator, "bc");
            assert_eq!(pos, Position { line: 1, column: 3, offset: 2 });
        }
        _ => panic!("expected an error"),
    }
}

fn conditional(plus_first: bool) -> Parser {
    let mut grammar = Grammar::new(" *", Ok(())).unwrap();
    grammar.regex("id", "[a-z]+", Ok(())).unwrap();
    grammar.lgroup();
    if plus_first {
        grammar.op("plus", pattern(Fixity::Infix, "+", &[]), Ok(())).unwrap();
        grammar.lgroup();
    }
    grammar.op("if", pattern(Fixity::Prefix, "if", &["then", "else"]), Ok(())).unwrap();
    if !plus_first {
        grammar.lgroup();
        grammar.op("plus", pattern(Fixity::Infix, "+", &[]), Ok(())).unwrap();
    }
    grammar.finish()
}

#[test]
fn mixfix_followers_bind_as_walls() {
    let loose_plus = conditional(false);
    assert_eq!(
        parse_and_show(&loose_plus, "if a then b else c + d").unwrap(),
        vec!["(+ (if a b c) d)"]
    );
    let tight_plus = conditional(true);
    assert_eq!(
        parse_and_show(&tight_plus, "if a then b else c + d").unwrap(),
        vec!["(if a b (+ c d))"]
    );
    assert_eq!(
        parse_and_show(&loose_plus, "if a + b then c + d else e").unwrap(),
        vec!["(if (+ a b) (+ c d) e)"]
    );
}

#[test]
fn mixfix_node_has_its_arguments_as_children() {
    let parser = conditional(false);
    let source = "if a then b else c";
    let parsed = parser.parse(source, lex(&parser, source)).unwrap();
    let node = parsed.groups().collect()[0];
    assert_eq!(node.name(), "if");
    assert_eq!(node.arity(), 3);
    let (first, second, third) = node.expect_3_children();
    assert_eq!((first.text(), second.text(), third.text()), ("a", "b", "c"));
    assert_eq!(node.span(), (0, 2));
    let patterns = node.op_patterns(&parser);
    let texts: Vec<&str> = patterns.iter().map(|p| p.unwrap().text.as_str()).collect();
    assert_eq!(texts, vec!["if", "then", "else"]);
}

#[test]
fn missing_separator_names_operator_and_separator() {
    let parser = conditional(false);
    match parse_and_show(&parser, "if a then b") {
        Err(ParseError::MissingSeparator { op_name, separator, pos }) => {
            assert_eq!(op_name, "if");
            assert_eq!(separator, "else");
            assert_eq!(pos, Position { line: 1, column: 1, offset: 0 });
        }
        _ => panic!("expected an error"),
    }
    match parse_and_show(&parser, "if a else b") {
        Err(ParseError::MissingSeparator { op_name, separator, pos }) => {
            assert_eq!(op_name, "if");
            assert_eq!(separator, "then");
            assert_eq!(pos, Position { line: 1, column: 6, offset: 5 });
        }
        _ => panic!("expected an error"),
    }
}

#[test]
fn separator_without_operator_is_extra() {
    let parser = conditional(false);
    match parse_and_show(&parser, "a then b") {
        Err(ParseError::ExtraSeparator { separator, pos }) => {
            assert_eq!(separator, "then");
            assert_eq!(pos, Position { line: 1, column: 3, offset: 2 });
        }
        _ => panic!("expected an error"),
    }
    match parse_and_show(&parser, "if a then b else c else d") {
        Err(ParseError::ExtraSeparator { separator, pos }) => {
            assert_eq!(separator, "else");
            assert_eq!(pos.column, 20);
        }
        _ => panic!("expected an error"),
    }
}

#[test]
fn unknown_character_is_a_lex_error() {
    let parser = arithmetic();
    match parse_and_show(&parser, "1 + %") {
        Err(ParseError::LexError { lexeme, pos }) => {
            assert_eq!(lexeme, "%");
            assert_eq!(pos, Position { line: 1, column: 5, offset: 4 });
        }
        _ => panic!("expected an error"),
    }
}

#[test]
fn unknown_character_is_the_right_child_in_the_stream() {
    let parser = arithmetic();
    let source = "1 + %";
    let resolved = panfix::resolve::resolve(
        parser.prefixy_tokens(),
        parser.suffixy_tokens(),
        &lex(&parser, source),
    )
    .unwrap();
    let postfix = panfix::shunt(parser.prec_table(), resolved);
    let texts: Vec<&str> = postfix.iter().map(|l| l.lexeme).collect();
    assert_eq!(texts, vec!["1", "%", "+"]);
    assert_eq!(postfix[1].token, TOKEN_ERROR);
    assert_eq!(postfix[1].start.column, 5);
}

#[test]
fn one_token_is_read_in_the_role_of_its_place() {
    let mut grammar = Grammar::new(" *", Ok(())).unwrap();
    grammar.regex("id", "[a-z]+", Ok(())).unwrap();
    grammar.lgroup();
    grammar.op("neg", pattern(Fixity::Prefix, "-", &[]), Ok(())).unwrap();
    grammar.lgroup();
    grammar.op("minus", pattern(Fixity::Infix, "-", &[]), Ok(())).unwrap();
    let parser = grammar.finish();
    let source = "-x - y";
    let parsed = parser.parse(source, lex(&parser, source)).unwrap();
    let root = parsed.groups().collect()[0];
    assert_eq!(root.name(), "minus");
    assert_eq!(root.fixity(), Fixity::Infix);
    let (left, right) = root.expect_2_children();
    assert_eq!(left.name(), "neg");
    assert_eq!(left.fixity(), Fixity::Prefix);
    assert_eq!(left.children().collect()[0].text(), "x");
    assert_eq!(right.text(), "y");
}

#[test]
fn resolving_fills_in_what_is_absent() {
    let mut grammar = Grammar::new(" *", Ok(())).unwrap();
    grammar.regex("id", "[a-z]+", Ok(())).unwrap();
    grammar.lgroup();
    grammar.juxtapose().unwrap();
    grammar.op("plus", pattern(Fixity::Infix, "+", &[]), Ok(())).unwrap();
    let parser = grammar.finish();
    let source = "a b + + c";
    let resolved = panfix::resolve::resolve(
        parser.prefixy_tokens(),
        parser.suffixy_tokens(),
        &lex(&parser, source),
    )
    .unwrap();
    let tokens: Vec<usize> = resolved.iter().map(|l| l.token).collect();
    assert_eq!(tokens, vec![3, 2, 3, 4, 1, 4, 3]);
    assert_eq!(resolved[1].lexeme, "");
    assert_eq!(resolved[1].start.offset, 2);
    assert_eq!(resolved[4].start.offset, 6);
}

#[test]
fn token_without_any_binding_is_unrecognised() {
    let mut grammar = Grammar::new(" *", Ok(())).unwrap();
    grammar.regex("id", "[a-z]+", Ok(())).unwrap();
    assert_eq!(grammar.add_string_token("?", Ok(())).unwrap(), 4);
    let parser = grammar.finish();
    match parse_and_show(&parser, "?") {
        Err(ParseError::LexError { lexeme, pos }) => {
            assert_eq!(lexeme, "?");
            assert_eq!(pos.column, 1);
        }
        _ => panic!("expected an error"),
    }
}

#[test]
fn postfix_of_a_tree_reads_back_as_the_tree() {
    let parser = conditional(false);
    let source = "if a + b then c else d + e";
    let lexemes = lex(&parser, source);
    let resolved =
        panfix::resolve::resolve(parser.prefixy_tokens(), parser.suffixy_tokens(), &lexemes)
            .unwrap();
    let postfix = panfix::shunt(parser.prec_table(), resolved);
    let nodes = panfix::parse::assemble(parser.ops(), parser.token_patterns(), &postfix).unwrap();
    let trees = read_postfix(&nodes);
    assert_eq!(trees.len(), 1);
    let written = trees[0].postfix();
    let texts: Vec<&str> = written.iter().map(|n| n.text).collect();
    assert_eq!(texts, vec!["a", "b", "+", "c", "d", "if", "e", "+"]);
    let again = read_postfix(&written);
    assert_eq!(again.len(), 1);
    assert_eq!(format!("{:?}", again[0]), format!("{:?}", trees[0]));
    assert_eq!(again[0].children.len(), 2);
    assert_eq!(again[0].children[0].children.len(), 3);
}

#[test]
fn node_with_too_few_trees_takes_all_there_are() {
    let parser = arithmetic();
    let source = "1 +";
    let lexemes = lex(&parser, source);
    let postfix = vec![lexemes[1]];
    let ops = parser.ops();
    let resolved = vec![Lexeme::new(
        parser.suffixy_tokens()[lexemes[1].token].unwrap().0,
        postfix[0].lexeme,
        postfix[0].start,
        postfix[0].end,
    )];
    let nodes = panfix::parse::assemble(ops, parser.token_patterns(), &resolved).unwrap();
    let trees = read_postfix(&nodes);
    assert_eq!(trees.len(), 1);
    assert_eq!(trees[0].node.op.arity, 2);
    assert_eq!(trees[0].children.len(), 0);
}

#[test]
fn walk_hands_out_trees_in_order() {
    let parser = arithmetic();
    let source = "a + b";
    let parsed = parser.parse(source, lex(&parser, source)).unwrap();
    let root = parsed.groups().collect()[0];
    let mut children = root.children();
    assert_eq!(children.len(), 2);
    assert_eq!(children.next().unwrap().text(), "a");
    assert_eq!(children.len(), 1);
    assert_eq!(children.next().unwrap().text(), "b");
    assert_eq!(children.len(), 0);
    assert!(children.next().is_none());
}

#[test]
fn written_blanks_are_blanks() {
    let mut grammar = Grammar::new(" *", Ok(())).unwrap();
    grammar.lgroup();
    grammar.op("plus", pattern(Fixity::Infix, "+", &[]), Ok(())).unwrap();
    let parser = grammar.finish();
    let source = "_+_";
    let at = |offset: usize| Position { line: 1, column: offset + 1, offset };
    let lexemes = vec![
        Lexeme::new(panfix::TOKEN_BLANK, &source[0..1], at(0), at(1)),
        Lexeme::new(3, &source[1..2], at(1), at(2)),
        Lexeme::new(panfix::TOKEN_BLANK, &source[2..3], at(2), at(3)),
    ];
    let parsed = parser.parse(source, lexemes).unwrap();
    let groups = parsed.groups().collect();
    assert_eq!(groups.len(), 1);
    let mut names = Vec::new();
    collect_names(groups[0], &mut names);
    assert_eq!(names.join(" "), "$Blank $Blank plus");
    let (left, right) = groups[0].expect_2_children();
    assert_eq!((left.span(), right.span()), ((0, 1), (2, 3)));
}

fn collect_names(visitor: Visitor<'_>, names: &mut Vec<String>) {
    for child in visitor.children().collect() {
        collect_names(child, names);
    }
    names.push(visitor.name().to_owned());
}

#[test]
fn trees_written_out_give_back_the_nodes() {
    let parser = conditional(false);
    let source = "if a + b then c else d + e";
    let lexemes = lex(&parser, source);
    let resolved =
        panfix::resolve::resolve(parser.prefixy_tokens(), parser.suffixy_tokens(), &lexemes)
            .unwrap();
    let postfix = panfix::shunt(parser.prec_table(), resolved);
    let nodes = panfix::parse::assemble(parser.ops(), parser.token_patterns(), &postfix).unwrap();
    let parsed = parser.parse(source, lexemes).unwrap();
    let written = parsed.postfix();
    assert_eq!(written.len(), nodes.len());
    for (one, other) in written.iter().zip(nodes.iter()) {
        assert_eq!(one.text, other.text);
        assert_eq!(one.span, other.span);
        assert_eq!(one.op.name, other.op.name);
    }
    let stray = vec![nodes[2], nodes[0]];
    let trees = read_postfix(&stray);
    assert_eq!(trees.len(), 2);
    let mut again = trees[0].postfix();
    again.extend(trees[1].postfix());
    let texts: Vec<&str> = again.iter().map(|n| n.text).collect();
    assert_eq!(texts, vec!["+", "a"]);
}

#[test]
fn visitors_know_the_source() {
    let parser = arithmetic();
    let source = "a + b";
    let parsed = parser.parse(source, lex(&parser, source)).unwrap();
    let root = parsed.groups().collect()[0];
    assert_eq!(root.source(), source);
    assert_eq!(root.children().collect()[1].source(), source);
}
