use panfix::{
    Assoc, Fixity, Grammar, GrammarError, Op, Pattern, PatternKind, TokenPattern, TOKEN_BLANK,
    TOKEN_ERROR, TOKEN_JUXTAPOSE,
};

fn pattern(fixity: Fixity, first: &str, followers: &[&str]) -> Pattern {
    Pattern {
        fixity,
        first_token: first.to_owned(),
        followers: followers.iter().map(|s| (*s).to_owned()).collect(),
    }
}

#[test]
fn precedences_follow_fixity_and_associativity() {
    let cases = [
        (Fixity::Nilfix, Assoc::Left, None, None),
        (Fixity::Nilfix, Assoc::Right, None, None),
        (Fixity::Prefix, Assoc::Left, None, Some(19)),
        (Fixity::Prefix, Assoc::Right, None, Some(20)),
        (Fixity::Suffix, Assoc::Left, Some(20), None),
        (Fixity::Suffix, Assoc::Right, Some(19), None),
        (Fixity::Infix, Assoc::Left, Some(20), Some(19)),
        (Fixity::Infix, Assoc::Right, Some(19), Some(20)),
    ];
    for (fixity, assoc, left, right) in cases {
        let op = Op::new("op", fixity, assoc, 20, 7, vec![]);
        assert_eq!(op.left_prec, left);
        assert_eq!(op.right_prec, right);
        assert_eq!(op.first_token, 7);
        assert_eq!(op.name, "op");
    }
}

#[test]
fn arity_counts_sides_and_followers() {
    assert_eq!(Op::new("a", Fixity::Nilfix, Assoc::Left, 0, 3, vec![]).arity, 0);
    assert_eq!(Op::new("a", Fixity::Nilfix, Assoc::Left, 0, 3, vec![4]).arity, 1);
    assert_eq!(Op::new("a", Fixity::Prefix, Assoc::Left, 10, 3, vec![4, 5]).arity, 3);
    assert_eq!(Op::new("a", Fixity::Suffix, Assoc::Left, 10, 3, vec![4]).arity, 2);
    assert_eq!(Op::new("a", Fixity::Infix, Assoc::Left, 10, 3, vec![]).arity, 2);
    assert_eq!(Op::new("a", Fixity::Infix, Assoc::Left, 10, 3, vec![4]).arity, 3);
}

#[test]
fn atom_blank_and_juxtapose() {
    let atom = Op::new_atom("number", 5);
    assert_eq!(atom.fixity, Fixity::Nilfix);
    assert_eq!((atom.left_prec, atom.right_prec, atom.arity, atom.prec), (None, None, 0, 0));
    let blank = Op::new_blank(TOKEN_BLANK);
    assert_eq!(blank.name, "$Blank");
    assert_eq!(blank.arity, 0);
    let juxtapose = Op::new_juxtapose(Assoc::Right, 30, TOKEN_JUXTAPOSE);
    assert_eq!(juxtapose.name, "$Juxtapose");
    assert_eq!((juxtapose.left_prec, juxtapose.right_prec), (Some(29), Some(30)));
    assert_eq!(juxtapose.arity, 2);
}

#[test]
fn reserved_tokens_are_fixed() {
    assert_eq!((TOKEN_ERROR, TOKEN_BLANK, TOKEN_JUXTAPOSE), (0, 1, 2));
    let parser = Grammar::new(" *", Ok(())).unwrap().finish();
    assert_eq!(parser.token_patterns().len(), 3);
    assert_eq!(parser.whitespace(), " *");
    assert_eq!(parser.prec_table(), &vec![(0, 0), (0, 0), (10, 10)]);
    assert_eq!(parser.prefixy_tokens(), &vec![Some((0, false)), Some((1, false)), None]);
    assert_eq!(parser.suffixy_tokens(), &vec![None, None, None]);
    assert_eq!(parser.ops()[1].as_ref().unwrap().name, "$Blank");
}

#[test]
fn unicode_whitespace_grammar_is_fresh() {
    let parser = Grammar::new_with_unicode_whitespace(Ok(())).unwrap().finish();
    assert_eq!(parser.token_patterns().len(), 3);
    assert!(parser.whitespace().starts_with('['));
}

#[test]
fn same_literal_gets_the_same_token() {
    let mut grammar = Grammar::new(" *", Ok(())).unwrap();
    let plus = grammar.add_string_token("+", Ok(())).unwrap();
    let minus = grammar.add_string_token("-", Ok(())).unwrap();
    assert_eq!(plus, 3);
    assert_eq!(minus, 4);
    assert_eq!(grammar.add_string_token("+", Ok(())).unwrap(), 3);
    let number = grammar.add_regex_token("[0-9]+", "number", Ok(())).unwrap();
    assert_eq!(number, 5);
    assert_eq!(grammar.add_regex_token("[0-9]+", "number", Ok(())).unwrap(), 6);
    assert_eq!(grammar.finish().token_patterns().len(), 7);
}

#[test]
fn groups_are_ten_apart() {
    let mut grammar = Grammar::new(" *", Ok(())).unwrap();
    assert!(matches!(grammar.get_prec_and_assoc(), Err(GrammarError::PrecNotSet)));
    grammar.lgroup();
    assert!(matches!(grammar.get_prec_and_assoc(), Ok((10, Assoc::Left))));
    grammar.rgroup();
    assert!(matches!(grammar.get_prec_and_assoc(), Ok((20, Assoc::Right))));
}

#[test]
fn operator_before_any_group_is_refused() {
    let mut grammar = Grammar::new(" *", Ok(())).unwrap();
    let result = grammar.op("plus", pattern(Fixity::Infix, "+", &[]), Ok(()));
    assert!(matches!(result, Err(GrammarError::PrecNotSet)));
    assert!(matches!(grammar.juxtapose(), Err(GrammarError::PrecNotSet)));
    assert!(grammar.op("null", pattern(Fixity::Nilfix, "null", &[]), Ok(())).is_ok());
    assert_eq!(grammar.finish().prec_table().len(), 4);
}

#[test]
fn infix_operator_fills_the_tables() {
    let mut grammar = Grammar::new(" *", Ok(())).unwrap();
    grammar.lgroup();
    grammar.op("plus", pattern(Fixity::Infix, "+", &[]), Ok(())).unwrap();
    grammar.rgroup();
    grammar.op("arrow", pattern(Fixity::Infix, "->", &[]), Ok(())).unwrap();
    let parser = grammar.finish();
    assert_eq!(parser.prec_table()[3], (10, 9));
    assert_eq!(parser.prec_table()[4], (19, 20));
    assert_eq!(parser.suffixy_tokens()[3], Some((3, true)));
    assert_eq!(parser.suffixy_tokens()[4], Some((4, true)));
    assert_eq!(parser.prefixy_tokens()[3], None);
    assert_eq!(parser.ops()[3].as_ref().unwrap().name, "plus");
}

#[test]
fn mixfix_followers_are_walls() {
    let mut grammar = Grammar::new(" *", Ok(())).unwrap();
    grammar.lgroup();
    grammar.op("if", pattern(Fixity::Prefix, "if", &["then", "else"]), Ok(())).unwrap();
    let parser = grammar.finish();
    assert_eq!(parser.prec_table()[3], (0, 65535));
    assert_eq!(parser.prec_table()[4], (65535, 65535));
    assert_eq!(parser.prec_table()[5], (65535, 9));
    assert_eq!(parser.prefixy_tokens()[3], Some((3, true)));
    assert_eq!(parser.suffixy_tokens()[4], Some((4, true)));
    assert_eq!(parser.suffixy_tokens()[5], Some((5, true)));
    let op = parser.ops()[3].as_ref().unwrap();
    assert_eq!(op.followers, vec![4, 5]);
    assert_eq!(op.arity, 3);
    assert!(parser.ops()[4].is_none());
    assert!(parser.ops()[5].is_none());
}

#[test]
fn brackets_close_without_a_right_argument() {
    let mut grammar = Grammar::new(" *", Ok(())).unwrap();
    grammar.op("parens", pattern(Fixity::Nilfix, "(", &[")"]), Ok(())).unwrap();
    let parser = grammar.finish();
    assert_eq!(parser.prec_table()[3], (0, 65535));
    assert_eq!(parser.prec_table()[4], (65535, 0));
    assert_eq!(parser.prefixy_tokens()[3], Some((3, true)));
    assert_eq!(parser.suffixy_tokens()[4], Some((4, false)));
}

#[test]
fn duplicate_prefixy_operators_are_rejected() {
    let mut grammar = Grammar::new(" *", Ok(())).unwrap();
    grammar.lgroup();
    grammar.op("neg", pattern(Fixity::Prefix, "-", &[]), Ok(())).unwrap();
    let result = grammar.op("minus_atom", pattern(Fixity::Nilfix, "-", &[]), Ok(()));
    match result {
        Err(GrammarError::DuplicateOp { op_1, op_2 }) => {
            assert_eq!(op_1, "neg");
            assert_eq!(op_2, "minus_atom");
        }
        _ => panic!("expected a duplicate"),
    }
    assert_eq!(grammar.finish().prec_table().len(), 4);
}

#[test]
fn duplicate_suffixy_operators_are_rejected() {
    let mut grammar = Grammar::new(" *", Ok(())).unwrap();
    grammar.lgroup();
    grammar.op("plus", pattern(Fixity::Infix, "+", &[]), Ok(())).unwrap();
    let result = grammar.op("incr", pattern(Fixity::Suffix, "+", &[]), Ok(()));
    assert!(matches!(result, Err(GrammarError::DuplicateOp { .. })));
}

#[test]
fn duplicate_atoms_are_rejected() {
    let mut grammar = Grammar::new(" *", Ok(())).unwrap();
    grammar.string("null", "null", Ok(())).unwrap();
    let result = grammar.string("nil", "null", Ok(()));
    match result {
        Err(GrammarError::DuplicateOp { op_1, op_2 }) => {
            assert_eq!(op_1, "null");
            assert_eq!(op_2, "nil");
        }
        _ => panic!("expected a duplicate"),
    }
}

#[test]
fn one_token_in_both_roles_is_accepted() {
    let mut grammar = Grammar::new(" *", Ok(())).unwrap();
    grammar.lgroup();
    grammar.op("neg", pattern(Fixity::Prefix, "-", &[]), Ok(())).unwrap();
    grammar.lgroup();
    grammar.op("minus", pattern(Fixity::Infix, "-", &[]), Ok(())).unwrap();
    let parser = grammar.finish();
    assert_eq!(parser.token_patterns().len(), 4);
    assert_eq!(parser.prefixy_tokens()[3], Some((3, true)));
    assert_eq!(parser.suffixy_tokens()[3], Some((4, true)));
}

#[test]
fn follower_used_twice_is_a_suffixy_conflict() {
    let mut grammar = Grammar::new(" *", Ok(())).unwrap();
    grammar.lgroup();
    grammar.op("if", pattern(Fixity::Prefix, "if", &["then", "else"]), Ok(())).unwrap();
    let result = grammar.op("unless", pattern(Fixity::Prefix, "unless", &["then"]), Ok(()));
    match result {
        Err(GrammarError::SuffixyConflict { token }) => assert_eq!(token, "then"),
        _ => panic!("expected a conflict"),
    }
    let parser = grammar.finish();
    assert_eq!(parser.prec_table().len(), 6);
    assert_eq!(parser.token_patterns().len(), 7);
    assert_eq!(parser.prefixy_tokens()[6], None);
}

#[test]
fn follower_repeated_in_one_pattern_is_a_suffixy_conflict() {
    let mut grammar = Grammar::new(" *", Ok(())).unwrap();
    grammar.lgroup();
    let result = grammar.op("triple", pattern(Fixity::Infix, "?", &[":", ":"]), Ok(()));
    match result {
        Err(GrammarError::SuffixyConflict { token }) => assert_eq!(token, ":"),
        _ => panic!("expected a conflict"),
    }
    let result = grammar.op("twice", pattern(Fixity::Infix, "|", &["|"]), Ok(()));
    assert!(matches!(result, Err(GrammarError::SuffixyConflict { .. })));
    assert!(grammar.op("abs", pattern(Fixity::Nilfix, "|", &["|"]), Ok(())).is_ok());
}

#[test]
fn operator_on_a_follower_is_a_suffixy_conflict() {
    let mut grammar = Grammar::new(" *", Ok(())).unwrap();
    grammar.lgroup();
    grammar.op("if", pattern(Fixity::Prefix, "if", &["then"]), Ok(())).unwrap();
    let result = grammar.op("then_op", pattern(Fixity::Infix, "then", &[]), Ok(()));
    match result {
        Err(GrammarError::SuffixyConflict { token }) => assert_eq!(token, "then"),
        _ => panic!("expected a conflict"),
    }
}

#[test]
fn binding_a_token_twice_without_left_argument_is_a_prefixy_conflict() {
    let mut grammar = Grammar::new(" *", Ok(())).unwrap();
    let token = grammar.add_string_token("x", Ok(())).unwrap();
    assert_eq!(grammar.add_op_token(None, token, None, None).unwrap(), 3);
    match grammar.add_op_token(None, token, None, Some(5)) {
        Err(GrammarError::PrefixyConflict { token }) => assert_eq!(token, "x"),
        _ => panic!("expected a conflict"),
    }
    assert_eq!(grammar.add_op_token(None, token, Some(7), Some(5)).unwrap(), 4);
    match grammar.add_op_token(None, token, Some(7), None) {
        Err(GrammarError::SuffixyConflict { token }) => assert_eq!(token, "x"),
        _ => panic!("expected a conflict"),
    }
    let parser = grammar.finish();
    assert_eq!(parser.prec_table()[3], (0, 0));
    assert_eq!(parser.prec_table()[4], (7, 5));
    assert_eq!(parser.prefixy_tokens()[3], Some((3, false)));
    assert_eq!(parser.suffixy_tokens()[3], Some((4, true)));
}

#[test]
fn juxtapose_takes_the_precedence_of_its_group() {
    let mut grammar = Grammar::new(" *", Ok(())).unwrap();
    grammar.lgroup();
    grammar.lgroup();
    grammar.juxtapose().unwrap();
    match grammar.juxtapose() {
        Err(GrammarError::SuffixyConflict { token }) => assert_eq!(token, "_"),
        _ => panic!("expected a conflict"),
    }
    let parser = grammar.finish();
    assert_eq!(parser.prec_table()[TOKEN_JUXTAPOSE], (20, 19));
    assert_eq!(parser.suffixy_tokens()[TOKEN_JUXTAPOSE], Some((2, true)));
    assert_eq!(parser.ops()[2].as_ref().unwrap().name, "$Juxtapose");
}

#[test]
fn juxtapose_right_assoc_is_right_associative() {
    let mut grammar = Grammar::new(" *", Ok(())).unwrap();
    grammar.lgroup();
    grammar.juxtapose_right_assoc().unwrap();
    let parser = grammar.finish();
    assert_eq!(parser.prec_table()[TOKEN_JUXTAPOSE], (9, 10));
}

#[test]
fn add_raw_op_takes_the_precedence_as_given() {
    let mut grammar = Grammar::new(" *", Ok(())).unwrap();
    grammar.add_raw_op("not", Assoc::Right, 80, pattern(Fixity::Prefix, "~", &[]), Ok(())).unwrap();
    grammar.add_raw_op("bang", Assoc::Left, 50, pattern(Fixity::Suffix, "!", &[]), Ok(())).unwrap();
    let parser = grammar.finish();
    assert_eq!(parser.prec_table()[3], (0, 80));
    assert_eq!(parser.prec_table()[4], (50, 0));
    assert_eq!(parser.prefixy_tokens()[3], Some((3, true)));
    assert_eq!(parser.suffixy_tokens()[4], Some((4, false)));
}

#[test]
fn regex_atom_gets_a_token_of_its_own() {
    let mut grammar = Grammar::new(" *", Ok(())).unwrap();
    grammar.regex("number", "[0-9]+", Ok(())).unwrap();
    grammar.regex("number", "[0-9]+", Ok(())).unwrap();
    let parser = grammar.finish();
    assert_eq!(parser.token_patterns().len(), 5);
    assert_eq!(parser.token_patterns()[3].kind, PatternKind::Regex);
    assert_eq!(parser.token_patterns()[3].text, "[0-9]+");
    assert_eq!(parser.token_patterns()[3].name, "number");
    assert_eq!(parser.prefixy_tokens()[4], Some((4, false)));
}

#[test]
fn tokens_are_described_by_kind() {
    let constant = TokenPattern {
        kind: PatternKind::Constant,
        text: "else".to_owned(),
        name: "else".to_owned(),
    };
    assert_eq!(constant.describe(), "else");
    let regex = TokenPattern {
        kind: PatternKind::Regex,
        text: "[0-9]+".to_owned(),
        name: "number".to_owned(),
    };
    assert_eq!(regex.describe(), "/[0-9]+/");
    let reserved =
        TokenPattern { kind: PatternKind::Reserved, text: String::new(), name: "_".to_owned() };
    assert_eq!(reserved.describe(), "_");
}

#[test]
fn fixity_and_associativity_have_words() {
    assert_eq!(Fixity::Nilfix.name(), "nilfix");
    assert_eq!(Fixity::Prefix.name(), "prefix");
    assert_eq!(Fixity::Suffix.name(), "suffix");
    assert_eq!(Fixity::Infix.name(), "infix");
    assert_eq!(Assoc::Left.name(), "left");
    assert_eq!(Assoc::Right.name(), "right");
}

fn rejection() -> Result<(), String> {
    Err("unclosed group".to_owned())
}

#[test]
fn rejected_whitespace_pattern_gives_no_grammar() {
    match Grammar::new("(", rejection()) {
        Err(GrammarError::RegexError(message)) => assert_eq!(message, "unclosed group"),
        _ => panic!("expected a regex error"),
    }
    assert!(matches!(
        Grammar::new_with_unicode_whitespace(rejection()),
        Err(GrammarError::RegexError(_))
    ));
    assert!(Grammar::unicode_whitespace_regex().starts_with('['));
}

#[test]
fn rejected_regex_leaves_the_grammar_unchanged() {
    let mut grammar = Grammar::new(" *", Ok(())).unwrap();
    match grammar.regex("bad", "(", rejection()) {
        Err(GrammarError::RegexError(message)) => assert_eq!(message, "unclosed group"),
        _ => panic!("expected a regex error"),
    }
    assert!(matches!(
        grammar.add_regex_token("(", "bad", rejection()),
        Err(GrammarError::RegexError(_))
    ));
    let parser = grammar.finish();
    assert_eq!(parser.token_patterns().len(), 3);
    assert_eq!(parser.prec_table().len(), 3);
    assert_eq!(parser.ops().len(), 3);
    assert_eq!(parser.prefixy_tokens(), &vec![Some((0, false)), Some((1, false)), None]);
    assert_eq!(parser.suffixy_tokens(), &vec![None, None, None]);
}

#[test]
fn rejected_literal_leaves_the_grammar_unchanged() {
    let mut grammar = Grammar::new(" *", Ok(())).unwrap();
    grammar.lgroup();
    assert!(matches!(
        grammar.add_string_token("+", rejection()),
        Err(GrammarError::RegexError(_))
    ));
    assert!(matches!(
        grammar.string("null", "null", rejection()),
        Err(GrammarError::RegexError(_))
    ));
    assert!(matches!(
        grammar.op("plus", pattern(Fixity::Infix, "+", &[]), rejection()),
        Err(GrammarError::RegexError(_))
    ));
    assert!(matches!(
        grammar.add_raw_op("plus", Assoc::Left, 10, pattern(Fixity::Infix, "+", &[]), rejection()),
        Err(GrammarError::RegexError(_))
    ));
    let parser = grammar.finish();
    assert_eq!(parser.token_patterns().len(), 3);
    assert_eq!(parser.prec_table().len(), 3);
}

#[test]
fn missing_group_is_reported_before_the_lexer_is_heard() {
    let mut grammar = Grammar::new(" *", Ok(())).unwrap();
    let result = grammar.op("plus", pattern(Fixity::Infix, "+", &[]), rejection());
    assert!(matches!(result, Err(GrammarError::PrecNotSet)));
}

#[test]
fn tokens_of_literals_start_at_three() {
    let mut grammar = Grammar::new(" *", Ok(())).unwrap();
    let first = grammar.add_string_token("", Ok(())).unwrap();
    assert_eq!(first, 3);
    assert_eq!(grammar.add_string_token("_", Ok(())).unwrap(), 4);
    assert_eq!(grammar.add_string_token("", Ok(())).unwrap(), 3);
}
